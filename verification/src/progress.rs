//! The progress line.
use vstd::prelude::*;
use vstd::string::*;

use crate::text::format_duration;

verus! {

/// The least time between two progress lines, in milliseconds.
pub const PRINT_INTERVAL_MS: u64 = 1000;

/// The count of characters in the progress bar.
pub const BAR_WIDTH: usize = 30;

/// Whether a progress line is due `now_ms` milliseconds into the extraction, where the last one
/// was printed at `last_ms`. Once all is done it always is.
pub fn progress_due(done: u64, total: u64, now_ms: u64, last_ms: u64) -> (due: bool)
    ensures
        due <==> (done >= total || now_ms - last_ms >= PRINT_INTERVAL_MS),
{
    !(done < total && now_ms.saturating_sub(last_ms) < PRINT_INTERVAL_MS)
}

/// Whether a progress line is printed, and the time of the last one from then on.
#[derive(Debug, Clone, Copy, PartialEq, Eq, Structural)]
pub struct ProgressStep {
    pub print: bool,
    pub last_ms: u64,
}

/// What is done about the progress line `now_ms` milliseconds into the extraction, where the last
/// one was printed at `last_ms`: a line that is due is printed now, and otherwise nothing changes.
pub fn progress_step(done: u64, total: u64, now_ms: u64, last_ms: u64) -> (step: ProgressStep)
    ensures
        step == (if done >= total || now_ms - last_ms >= PRINT_INTERVAL_MS {
            ProgressStep { print: true, last_ms: now_ms }
        } else {
            ProgressStep { print: false, last_ms }
        }),
{
    if progress_due(done, total, now_ms, last_ms) {
        ProgressStep { print: true, last_ms: now_ms }
    } else {
        ProgressStep { print: false, last_ms }
    }
}

/// Whether the time to go can be told from what is done.
pub fn eta_known(done: u64, total: u64) -> (known: bool)
    ensures
        known <==> 0 < done < total,
{
    done > 0 && done < total
}

/// The count of characters that a line on the terminal takes.
pub const LINE_WIDTH: usize = 79;

/// `text` followed by blanks up to the width of a line. A text that is longer stays as it is.
pub open spec fn padded(text: Seq<char>) -> Seq<char> {
    text + Seq::new(
        if text.len() < LINE_WIDTH {
            (LINE_WIDTH - text.len()) as nat
        } else {
            0
        },
        |i: int| ' ',
    )
}

/// `text` followed by blanks up to the width of a line, so that it covers the line before it. A
/// text that is longer stays as it is.
pub fn pad_line(text: &str) -> (line: String)
    ensures
        line@ == padded(text@),
{
    let mut line = String::new();
    line.append(text);
    let mut width: usize = text.unicode_len();
    proof {
        reveal_strlit(" ");
    }
    assert(" "@ =~= seq![' ']);
    while width < LINE_WIDTH
        invariant
            text@.len() <= width,
            width <= LINE_WIDTH || width == text@.len(),
            line@ == text@ + Seq::new((width - text@.len()) as nat, |i: int| ' '),
            " "@ == seq![' '],
        decreases LINE_WIDTH - width,
    {
        line.append(" ");
        width = width + 1;
        assert(line@ =~= text@ + Seq::new((width - text@.len()) as nat, |i: int| ' '));
    }
    line
}

/// A bar of which `fill` characters are done: those as `=`, then `>`, then blanks.
pub open spec fn bar_text(fill: int) -> Seq<char> {
    Seq::new(
        BAR_WIDTH as nat,
        |i: int|
            if i < fill {
                '='
            } else if i == fill {
                '>'
            } else {
                ' '
            },
    )
}

/// A bar of which `fill` characters are done, or all where there are fewer: those as `=`, then
/// `>`, then blanks.
pub fn progress_bar(fill: usize) -> (bar: String)
    ensures
        bar@ == bar_text(fill as int),
{
    let mut bar = String::new();
    proof {
        reveal_strlit("=");
        reveal_strlit(">");
        reveal_strlit(" ");
    }
    for i in 0..BAR_WIDTH
        invariant
            bar@ == bar_text(fill as int).take(i as int),
            "="@ == seq!['='],
            ">"@ == seq!['>'],
            " "@ == seq![' '],
    {
        if i < fill {
            bar.append("=");
        } else if i == fill {
            bar.append(">");
        } else {
            bar.append(" ");
        }
        assert(bar@ =~= bar_text(fill as int).take(i + 1));
    }
    assert(bar_text(fill as int).take(BAR_WIDTH as int) =~= bar_text(fill as int));
    bar
}

/// The progress line for a bar of which `fill` characters are done, the percentage as text, the
/// seconds since the start, and the seconds to go where they are known.
pub open spec fn line_text(
    fill: int,
    percent: Seq<char>,
    elapsed_s: u64,
    eta_s: Option<u64>,
) -> Seq<char> {
    "["@ + bar_text(fill) + "] "@ + percent + "% | "@ + crate::text::duration_text(elapsed_s)
        + " elapsed"@ + match eta_s {
        Some(eta_s) => " | ETA "@ + crate::text::duration_text(eta_s),
        None => Seq::empty(),
    }
}

/// The progress line for a bar of which `fill` characters are done, the percentage as text, the
/// seconds since the start, and the seconds to go where they are known.
pub fn progress_line(fill: usize, percent: &str, elapsed_s: u64, eta_s: Option<u64>) -> (line:
    String)
    ensures
        line@ == line_text(fill as int, percent@, elapsed_s, eta_s),
{
    let mut line = String::new();
    line.append("[");
    line.append(progress_bar(fill).as_str());
    line.append("] ");
    line.append(percent);
    line.append("% | ");
    line.append(format_duration(elapsed_s).as_str());
    line.append(" elapsed");
    if let Some(eta_s) = eta_s {
        line.append(" | ETA ");
        line.append(format_duration(eta_s).as_str());
    }
    assert(line@ =~= line_text(fill as int, percent@, elapsed_s, eta_s));
    line
}

/// What is printed for a progress line: back to the start of the line, then the line, padded.
pub fn progress_display(fill: usize, percent: &str, elapsed_s: u64, eta_s: Option<u64>) -> (text:
    String)
    ensures
        text@ == "\r"@ + padded(line_text(fill as int, percent@, elapsed_s, eta_s)),
{
    let line = progress_line(fill, percent, elapsed_s, eta_s);
    let mut text = String::new();
    text.append("\r");
    text.append(pad_line(line.as_str()).as_str());
    assert(text@ =~= "\r"@ + padded(line_text(fill as int, percent@, elapsed_s, eta_s)));
    text
}

/// What clears the progress line: blanks over it, and back to its start.
pub fn clear_display() -> (text: String)
    ensures
        text@ == "\r"@ + padded(Seq::empty()) + "\r"@,
{
    let mut text = String::new();
    text.append("\r");
    proof {
        reveal_strlit("");
    }
    assert(""@ =~= Seq::empty());
    text.append(pad_line("").as_str());
    text.append("\r");
    assert(text@ =~= "\r"@ + padded(Seq::empty()) + "\r"@);
    text
}

/// The bar is 30 characters wide: a `=` for each that is done, a `>` behind them where there is
/// room, and blanks up to the end.
pub proof fn law_bar_spelled(fill: int)
    ensures
        bar_text(fill).len() == 30,
        forall|i: int| #![trigger bar_text(fill)[i]] 0 <= i < 30 ==> (i < fill ==> bar_text(fill)[i]
            == '=') && (i == fill ==> bar_text(fill)[i] == '>') && (i > fill ==> bar_text(fill)[i]
            == ' '),
{
}

/// A line is filled with blanks to 79 characters, and a longer one is not cut.
pub proof fn law_lines_are_padded(text: Seq<char>)
    ensures
        text.is_prefix_of(padded(text)),
        padded(text).len() == (if text.len() < 79 {
            79
        } else {
            text.len()
        }),
        forall|i: int|
            #![trigger padded(text)[i]]
            text.len() <= i < padded(text).len() ==> padded(text)[i] == ' ',
{
}

/// The progress line is the bar in brackets, the percentage, the time since the start, and, where
/// it is known, the time to go.
pub proof fn law_line_spelled(fill: int, percent: Seq<char>, elapsed_s: u64, eta_s: Option<u64>)
    ensures
        ({
            let start = seq!['['] + bar_text(fill) + seq![']', ' '] + percent + seq![
                '%',
                ' ',
                '|',
                ' ',
            ] + crate::text::duration_text(elapsed_s) + seq![
                ' ',
                'e',
                'l',
                'a',
                'p',
                's',
                'e',
                'd',
            ];
            &&& eta_s is None ==> line_text(fill, percent, elapsed_s, eta_s) == start
            &&& eta_s is Some ==> line_text(fill, percent, elapsed_s, eta_s) == start + seq![
                ' ',
                '|',
                ' ',
                'E',
                'T',
                'A',
                ' ',
            ] + crate::text::duration_text(eta_s->Some_0)
        }),
{
    reveal_strlit("[");
    reveal_strlit("] ");
    reveal_strlit("% | ");
    reveal_strlit(" elapsed");
    reveal_strlit(" | ETA ");
    let start = seq!['['] + bar_text(fill) + seq![']', ' '] + percent + seq!['%', ' ', '|', ' ']
        + crate::text::duration_text(elapsed_s) + seq![' ', 'e', 'l', 'a', 'p', 's', 'e', 'd'];
    assert("["@ =~= seq!['['] && "] "@ =~= seq![']', ' '] && "% | "@ =~= seq!['%', ' ', '|', ' ']);
    assert(" elapsed"@ =~= seq![' ', 'e', 'l', 'a', 'p', 's', 'e', 'd']);
    assert(" | ETA "@ =~= seq![' ', '|', ' ', 'E', 'T', 'A', ' ']);
    match eta_s {
        Some(eta) => {
            assert(line_text(fill, percent, elapsed_s, eta_s) =~= start + seq![
                ' ',
                '|',
                ' ',
                'E',
                'T',
                'A',
                ' ',
            ] + crate::text::duration_text(eta));
        },
        None => {
            assert(line_text(fill, percent, elapsed_s, eta_s) =~= start);
        },
    }
}

} // verus!

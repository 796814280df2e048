use wing_extract::progress::{
    clear_display, eta_known, pad_line, progress_bar, progress_display, progress_due,
    progress_line, progress_step, ProgressStep,
};
use wing_extract::text::{format_duration, push_decimal};

#[test]
fn decimals() {
    for n in [0u64, 7, 10, 99, 100, 65535, 4294967296, u64::MAX] {
        let mut text = String::from("x");
        push_decimal(&mut text, n);
        assert_eq!(text, format!("x{n}"));
    }
}

#[test]
fn durations() {
    assert_eq!(format_duration(0), "0s");
    assert_eq!(format_duration(59), "59s");
    assert_eq!(format_duration(60), "1m 0s");
    assert_eq!(format_duration(3599), "59m 59s");
    assert_eq!(format_duration(3600), "1h 0m 0s");
    assert_eq!(format_duration(3605), "1h 0m 5s");
    assert_eq!(format_duration(90061), "25h 1m 1s");
}

#[test]
fn progress_is_due() {
    assert!(!progress_due(1, 2, 999, 0));
    assert!(progress_due(1, 2, 1000, 0));
    assert!(!progress_due(1, 2, 1500, 1000));
    assert!(!progress_due(1, 2, 1000, 1500));
    assert!(progress_due(2, 2, 0, 0));
}

#[test]
fn time_to_go_is_known() {
    assert!(!eta_known(0, 5));
    assert!(eta_known(1, 5));
    assert!(!eta_known(5, 5));
}

#[test]
fn progress_bars() {
    assert_eq!(progress_bar(0), format!(">{}", " ".repeat(29)));
    assert_eq!(progress_bar(3), format!("===>{}", " ".repeat(26)));
    assert_eq!(progress_bar(29), format!("{}>", "=".repeat(29)));
    assert_eq!(progress_bar(30), "=".repeat(30));
}

#[test]
fn progress_lines() {
    assert_eq!(
        progress_line(15, " 50", 61, Some(60)),
        format!("[{}>{}]  50% | 1m 1s elapsed | ETA 1m 0s", "=".repeat(15), " ".repeat(14))
    );
    assert_eq!(
        progress_line(30, "100", 5, None),
        format!("[{}] 100% | 5s elapsed", "=".repeat(30))
    );
}

#[test]
fn progress_steps() {
    assert_eq!(progress_step(1, 2, 999, 0), ProgressStep { print: false, last_ms: 0 });
    assert_eq!(progress_step(1, 2, 1000, 0), ProgressStep { print: true, last_ms: 1000 });
    assert_eq!(progress_step(1, 2, 1000, 1500), ProgressStep { print: false, last_ms: 1500 });
    assert_eq!(progress_step(2, 2, 1001, 1000), ProgressStep { print: true, last_ms: 1001 });
}

#[test]
fn lines_are_padded() {
    assert_eq!(pad_line("abc"), format!("{:<79}", "abc"));
    assert_eq!(pad_line("\u{fc}"), format!("{:<79}", "\u{fc}"));
    let long = "x".repeat(80);
    assert_eq!(pad_line(&long), long);
    assert_eq!(clear_display(), format!("\r{:<79}\r", ""));
}

#[test]
fn progress_is_displayed() {
    let line = progress_line(15, " 50", 61, Some(60));
    assert_eq!(progress_display(15, " 50", 61, Some(60)), format!("\r{line:<79}"));
}

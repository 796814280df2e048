//! Reading the frames of a recording, in order and in pieces.
//!
//! The samples of a recording stand in the data regions of its parts, one after the other.
//! [`Cursor`] says which piece of which part is to be read next; [`demux_parts`] reads parts that
//! are in memory.
use vstd::prelude::*;

use crate::error::ExtractError;
use crate::format::WavFormat;
use crate::frames::{append_bytes, split_frames};
use crate::parse::{DataRegion, InputPart, PartView};

verus! {

/// The greatest count of frames in one piece.
pub const FRAMES_PER_CHUNK: usize = 4096;

/// A run of bytes in the part at index `part`.
pub struct Run {
    pub part: int,
    pub offset: int,
    pub len: int,
}

impl Run {
    /// The run without its first `n` bytes.
    pub open spec fn without(self, n: int) -> Run {
        Run { part: self.part, offset: self.offset + n, len: self.len - n }
    }
}

/// The data regions of `parts` from one on, of which `done` bytes are left out.
pub open spec fn runs_from(parts: Seq<PartView>, part: int, region: int, done: int) -> Seq<Run>
    decreases parts.len() - part, parts[part].data_regions.len() - region,
{
    if part < 0 || part >= parts.len() || region < 0 {
        Seq::empty()
    } else if region >= parts[part].data_regions.len() {
        runs_from(parts, part + 1, 0, 0)
    } else {
        let at = parts[part].data_regions[region];
        seq![Run { part, offset: at.offset + done, len: at.len - done }] + runs_from(
            parts,
            part,
            region + 1,
            0,
        )
    }
}

/// All data regions of `parts`.
pub open spec fn runs_of(parts: Seq<PartView>) -> Seq<Run> {
    runs_from(parts, 0, 0, 0)
}

/// The runs from the first on that is not empty.
pub open spec fn skip_empty(runs: Seq<Run>) -> Seq<Run>
    decreases runs.len(),
{
    if runs.len() > 0 && runs[0].len <= 0 {
        skip_empty(runs.drop_first())
    } else {
        runs
    }
}

/// The frames that are read from a recording, and why no more are, where that is a fault.
#[verifier::ext_equal]
pub struct Taken {
    pub bytes: Seq<u8>,
    pub fault: Option<ExtractError>,
}

/// The lesser of two numbers.
pub open spec fn lesser(a: int, b: int) -> int {
    if a < b {
        a
    } else {
        b
    }
}

/// The first `frames` frames in `runs`. A run that ends within a frame is a fault, unless no frame
/// is wanted beyond the whole ones in it.
pub open spec fn taken(
    files: Seq<Seq<u8>>,
    runs: Seq<Run>,
    frame_size: int,
    frames: int,
) -> Taken
    decreases runs.len(),
{
    if frames <= 0 || runs.len() == 0 {
        Taken { bytes: Seq::empty(), fault: None }
    } else if runs[0].len <= 0 {
        taken(files, runs.drop_first(), frame_size, frames)
    } else {
        let run = runs[0];
        let count = lesser(run.len / frame_size, frames);
        let bytes = files[run.part].subrange(run.offset, run.offset + count * frame_size);
        if count < frames && run.len % frame_size != 0 {
            Taken { bytes, fault: Some(ExtractError::UnalignedChunk(run.part as usize)) }
        } else {
            let rest = taken(files, runs.drop_first(), frame_size, frames - count);
            Taken { bytes: bytes + rest.bytes, fault: rest.fault }
        }
    }
}

/// Whether every run stands within its file.
pub open spec fn runs_in_files(files: Seq<Seq<u8>>, runs: Seq<Run>) -> bool {
    forall|i: int|
        #![trigger runs[i]]
        0 <= i < runs.len() ==> {
            &&& 0 <= runs[i].part < files.len()
            &&& 0 <= runs[i].offset
            &&& 0 <= runs[i].len
            &&& runs[i].offset + runs[i].len <= files[runs[i].part].len()
        }
}

/// Whether every data region stands within its file.
pub open spec fn regions_in_files(files: Seq<Seq<u8>>, parts: Seq<PartView>) -> bool {
    &&& files.len() == parts.len()
    &&& forall|p: int, r: int|
        #![trigger parts[p].data_regions[r]]
        0 <= p < parts.len() && 0 <= r < parts[p].data_regions.len()
            ==> parts[p].data_regions[r].offset + parts[p].data_regions[r].len <= files[p].len()
}

/// Whether every data region ends at an offset.
pub open spec fn regions_fit(parts: Seq<PartView>) -> bool {
    forall|p: int, r: int|
        #![trigger parts[p].data_regions[r]]
        0 <= p < parts.len() && 0 <= r < parts[p].data_regions.len()
            ==> parts[p].data_regions[r].offset + parts[p].data_regions[r].len <= u64::MAX
}

/// A piece of a recording that is to be read: `len` bytes at `offset` of the part at index `part`,
/// of which the first `keep` are wanted.
#[derive(Debug, Clone, Copy, PartialEq, Eq, Structural)]
pub struct ReadRequest {
    pub part: usize,
    pub offset: u64,
    pub len: usize,
    pub keep: usize,
}

/// The count of frames in the next piece of a run of `len` bytes.
pub open spec fn piece_frames(len: int, frame_size: int) -> int {
    lesser(FRAMES_PER_CHUNK as int, len / frame_size)
}

/// The frames in the greatest piece, cut to what is left, are those of the next piece.
proof fn lemma_piece_count(remaining: int, frame_size: int)
    requires
        0 < remaining,
        0 < frame_size <= u16::MAX,
    ensures
        lesser(FRAMES_PER_CHUNK * frame_size, remaining) / frame_size == piece_frames(
            remaining,
            frame_size,
        ),
        0 <= piece_frames(remaining, frame_size),
        piece_frames(remaining, frame_size) == 0 <==> remaining < frame_size,
        piece_frames(remaining, frame_size) * frame_size <= remaining,
        piece_frames(remaining, frame_size) * frame_size <= FRAMES_PER_CHUNK * frame_size,
{
    let q = remaining / frame_size;
    let r = remaining % frame_size;
    vstd::arithmetic::div_mod::lemma_fundamental_div_mod(remaining, frame_size);
    vstd::arithmetic::div_mod::lemma_fundamental_div_mod_converse(
        FRAMES_PER_CHUNK * frame_size,
        frame_size,
        4096,
        0,
    );
    assert(q * frame_size == frame_size * q) by (nonlinear_arith);
    assert(q >= 4096 ==> q * frame_size >= 4096 * frame_size) by (nonlinear_arith)
        requires
            0 < frame_size,
    ;
    assert(q < 4096 ==> q * frame_size + frame_size <= 4096 * frame_size) by (nonlinear_arith)
        requires
            0 < frame_size,
    ;
    assert(q >= 1 ==> q * frame_size >= frame_size) by (nonlinear_arith)
        requires
            0 < frame_size,
    ;
    assert(q <= -1 ==> q * frame_size <= -frame_size) by (nonlinear_arith)
        requires
            0 < frame_size,
    ;
    assert(q == 0 ==> q * frame_size == 0) by (nonlinear_arith);
}

/// Where the reading of a recording has come to: `done` bytes into a region of a part, with
/// `frames_remaining` frames still wanted.
#[derive(Debug, Clone, Copy, PartialEq, Eq, Structural)]
pub struct Cursor {
    pub part: usize,
    pub region: usize,
    pub done: u64,
    pub frames_remaining: u64,
}

impl Cursor {
    /// The runs that are still to be read.
    pub open spec fn runs(self, parts: Seq<PartView>) -> Seq<Run> {
        runs_from(parts, self.part as int, self.region as int, self.done as int)
    }

    /// The cursor is at or before the end of a region.
    pub open spec fn well_formed(self, parts: Seq<PartView>) -> bool {
        if self.part < parts.len() && self.region < parts[self.part as int].data_regions.len() {
            self.done <= parts[self.part as int].data_regions[self.region as int].len
        } else {
            self.done == 0
        }
    }

    /// A cursor before the first of `frames` frames.
    pub fn new(frames: u64) -> (cursor: Cursor)
        ensures
            cursor == (Cursor { part: 0, region: 0, done: 0, frames_remaining: frames }),
    {
        Cursor { part: 0, region: 0, done: 0, frames_remaining: frames }
    }

    /// The next piece to read, or nothing where all wanted frames or all runs are read. The cursor
    /// moves behind the piece. A run with less than a frame left is a fault.
    ///
    /// The cursor moves on to a part only while frames are wanted: where it ends up, all parts up
    /// to that one have been reached, whether or not they hold samples.
    pub fn next_read(&mut self, parts: &Vec<InputPart>, block_align: u16) -> (result: Result<
        Option<ReadRequest>,
        ExtractError,
    >)
        requires
            old(self).frames_remaining > 0 && skip_empty(
                old(self).runs(crate::survey::part_views(parts@)),
            ).len() > 0 ==> block_align > 0,
            old(self).well_formed(crate::survey::part_views(parts@)),
            regions_fit(crate::survey::part_views(parts@)),
        ensures
            final(self).well_formed(crate::survey::part_views(parts@)),
            ({
                let runs = skip_empty(old(self).runs(crate::survey::part_views(parts@)));
                let frames = old(self).frames_remaining;
                let frame_size = block_align as int;
                match result {
                    Ok(None) => {
                        &&& frames == 0 || runs.len() == 0
                        &&& final(self).frames_remaining == frames
                        &&& frames == 0 ==> *final(self) == *old(self)
                        &&& frames > 0 ==> final(self).part >= parts@.len()
                        &&& skip_empty(final(self).runs(crate::survey::part_views(parts@)))
                            == runs
                    },
                    Ok(Some(piece)) => {
                        &&& frames > 0 && runs.len() > 0 && runs[0].len >= frame_size
                        &&& piece.part == runs[0].part
                        &&& final(self).part == piece.part
                        &&& piece.offset == runs[0].offset
                        &&& piece.len == piece_frames(runs[0].len, frame_size) * frame_size
                        &&& piece.keep == lesser(
                            piece_frames(runs[0].len, frame_size),
                            frames as int,
                        ) * frame_size
                        &&& final(self).frames_remaining == frames - lesser(
                            piece_frames(runs[0].len, frame_size),
                            frames as int,
                        )
                        &&& final(self).runs(crate::survey::part_views(parts@)) == seq![
                            runs[0].without(piece.len as int),
                        ] + runs.drop_first()
                    },
                    Err(error) => {
                        &&& frames > 0 && runs.len() > 0 && runs[0].len < frame_size
                        &&& error == ExtractError::UnalignedChunk(runs[0].part as usize)
                        &&& final(self).frames_remaining == frames
                        &&& final(self).part == runs[0].part
                        &&& skip_empty(final(self).runs(crate::survey::part_views(parts@)))
                            == runs
                    },
                }
            }),
    {
        let ghost views = crate::survey::part_views(parts@);
        let ghost all = self.runs(views);
        while self.frames_remaining > 0 && self.part < parts.len()
            invariant
                self.frames_remaining == old(self).frames_remaining,
                old(self).frames_remaining == 0 ==> *self == *old(self),
                old(self).frames_remaining > 0 && skip_empty(all).len() > 0 ==> block_align > 0,
                views == crate::survey::part_views(parts@),
                all == old(self).runs(views),
                self.well_formed(views),
                regions_fit(views),
                skip_empty(self.runs(views)) == skip_empty(all),
            decreases
                    parts@.len() - self.part,
                    parts@[self.part as int].data_regions@.len() - self.region,
        {
            let regions = &parts[self.part].data_regions;
            assert(views[self.part as int].data_regions == regions@);
            if self.region >= regions.len() {
                self.part = self.part + 1;
                self.region = 0;
                self.done = 0;
                continue;
            }
            let region: DataRegion = regions[self.region];
            let ghost here = Run {
                part: self.part as int,
                offset: region.offset + self.done,
                len: region.len - self.done,
            };
            let ghost later = runs_from(views, self.part as int, self.region + 1, 0);
            assert(views[self.part as int].data_regions[self.region as int] == region);
            assert(self.runs(views) == seq![here] + later);
            assert((seq![here] + later).drop_first() =~= later);
            let remaining: u64 = region.len - self.done;
            if remaining == 0 {
                self.region = self.region + 1;
                self.done = 0;
                continue;
            }
            assert(skip_empty(self.runs(views)) == self.runs(views));
            let frame_size: u64 = block_align as u64;
            assert(FRAMES_PER_CHUNK as u64 == 4096);
            let most: u64 = FRAMES_PER_CHUNK as u64 * frame_size;
            let whole: u64 = if most < remaining {
                most
            } else {
                remaining
            };
            let count: u64 = whole / frame_size;
            proof {
                lemma_piece_count(remaining as int, frame_size as int);
            }
            if count == 0 {
                return Err(ExtractError::UnalignedChunk(self.part));
            }
            let len: u64 = count * frame_size;
            let kept: u64 = if count < self.frames_remaining {
                count
            } else {
                self.frames_remaining
            };
            proof {
                assert(0 <= kept * frame_size <= count * frame_size) by (nonlinear_arith)
                    requires
                        0 <= kept <= count,
                        0 <= frame_size,
                ;
            }
            let piece = ReadRequest {
                part: self.part,
                offset: region.offset + self.done,
                len: len as usize,
                keep: (kept * frame_size) as usize,
            };
            self.done = self.done + len;
            self.frames_remaining = self.frames_remaining - kept;
            return Ok(Some(piece));
        }
        Ok(None)
    }
}

/// Runs of no bytes hold no frames.
proof fn lemma_taken_skip_empty(
    files: Seq<Seq<u8>>,
    runs: Seq<Run>,
    frame_size: int,
    frames: int,
)
    requires
        runs_in_files(files, runs),
    ensures
        runs_in_files(files, skip_empty(runs)),
        taken(files, skip_empty(runs), frame_size, frames) == taken(
            files,
            runs,
            frame_size,
            frames,
        ),
    decreases runs.len(),
{
    if runs.len() > 0 && runs[0].len <= 0 {
        let rest = runs.drop_first();
        assert forall|i: int| #![trigger rest[i]] 0 <= i < rest.len() implies rest[i] == runs[i
            + 1] by {}
        lemma_taken_skip_empty(files, rest, frame_size, frames);
    }
}

/// Reading a run piece by piece gives the same frames as reading it at once: the frames in `runs`
/// are the first of the next piece that are wanted, followed by those in what the piece leaves.
pub proof fn law_piecewise_reading(
    files: Seq<Seq<u8>>,
    runs: Seq<Run>,
    frame_size: int,
    frames: int,
)
    requires
        0 < frame_size <= u16::MAX,
        0 < frames,
        runs.len() > 0,
        runs[0].len >= frame_size,
        runs_in_files(files, runs),
    ensures
        ({
            let count = piece_frames(runs[0].len, frame_size);
            let kept = lesser(count, frames);
            let left = seq![runs[0].without(count * frame_size)] + runs.drop_first();
            let rest = taken(files, left, frame_size, frames - kept);
            &&& runs_in_files(files, left)
            &&& taken(files, runs, frame_size, frames).bytes == files[runs[0].part].subrange(
                runs[0].offset,
                runs[0].offset + kept * frame_size,
            ) + rest.bytes
            &&& taken(files, runs, frame_size, frames).fault == rest.fault
        }),
{
    let run = runs[0];
    let count = piece_frames(run.len, frame_size);
    let kept = lesser(count, frames);
    let short = run.without(count * frame_size);
    let left = seq![short] + runs.drop_first();
    lemma_piece_count(run.len, frame_size);
    assert(0 <= count * frame_size) by (nonlinear_arith)
        requires
            0 <= count,
            0 < frame_size,
    ;
    assert forall|i: int| #![trigger left[i]] 0 <= i < left.len() implies left[i] == (if i == 0 {
        short
    } else {
        runs[i]
    }) by {}
    assert(left.drop_first() =~= runs.drop_first());
    let q = run.len / frame_size;
    let r = run.len % frame_size;
    vstd::arithmetic::div_mod::lemma_fundamental_div_mod(run.len, frame_size);
    assert(short.len == (q - count) * frame_size + r) by (nonlinear_arith)
        requires
            short.len == run.len - count * frame_size,
            run.len == frame_size * q + r,
    ;
    vstd::arithmetic::div_mod::lemma_fundamental_div_mod_converse(
        short.len,
        frame_size,
        q - count,
        r,
    );
    let file = files[run.part];
    let n = lesser(q, frames);
    if count < frames {
        let m = n - count;
        let rest = taken(files, runs.drop_first(), frame_size, frames - n);
        assert(n * frame_size == count * frame_size + m * frame_size) by (nonlinear_arith)
            requires
                n == count + m,
        ;
        assert(0 <= m * frame_size && n * frame_size <= q * frame_size) by (nonlinear_arith)
            requires
                0 <= m,
                n <= q,
                0 < frame_size,
        ;
        assert(q * frame_size == frame_size * q) by (nonlinear_arith);
        let a = file.subrange(run.offset, run.offset + count * frame_size);
        let b = file.subrange(short.offset, short.offset + m * frame_size);
        assert(file.subrange(run.offset, run.offset + n * frame_size) =~= a + b);
        assert(a + b + rest.bytes =~= a + (b + rest.bytes));
        if short.len == 0 {
            assert(m * frame_size == 0);
            assert(m == 0) by (nonlinear_arith)
                requires
                    m * frame_size == 0,
                    0 < frame_size,
            ;
            assert(b + rest.bytes =~= rest.bytes);
        }
    } else {
        assert(n == frames);
        let none = taken(files, left, frame_size, 0).bytes;
        let all = file.subrange(run.offset, run.offset + frames * frame_size);
        assert(all + none =~= all);
        assert(all + taken(files, runs.drop_first(), frame_size, 0).bytes =~= all);
    }
}

/// A run with less than one frame is a fault as soon as a frame is wanted.
proof fn lemma_short_run(files: Seq<Seq<u8>>, runs: Seq<Run>, frame_size: int, frames: int)
    requires
        0 < frame_size,
        0 < frames,
        runs.len() > 0,
        0 < runs[0].len < frame_size,
        runs_in_files(files, runs),
    ensures
        taken(files, runs, frame_size, frames) == (Taken {
            bytes: Seq::empty(),
            fault: Some(ExtractError::UnalignedChunk(runs[0].part as usize)),
        }),
{
    let run = runs[0];
    assert(0 * frame_size + run.len == run.len);
    vstd::arithmetic::div_mod::lemma_fundamental_div_mod_converse(run.len, frame_size, 0, run.len);
    assert(0 * frame_size == 0) by (nonlinear_arith);
    assert(files[run.part].subrange(run.offset, run.offset) =~= Seq::empty());
}

/// What is left once empty runs are skipped does not start with an empty run.
proof fn lemma_skip_empty_first(runs: Seq<Run>)
    ensures
        skip_empty(runs).len() > 0 ==> skip_empty(runs)[0].len > 0,
    decreases runs.len(),
{
    if runs.len() > 0 && runs[0].len <= 0 {
        lemma_skip_empty_first(runs.drop_first());
    }
}

/// Regions that stand within their files give runs that do.
pub proof fn lemma_runs_in_files(
    files: Seq<Seq<u8>>,
    parts: Seq<PartView>,
    part: int,
    region: int,
)
    requires
        regions_in_files(files, parts),
    ensures
        runs_in_files(files, runs_from(parts, part, region, 0)),
    decreases parts.len() - part, parts[part].data_regions.len() - region,
{
    if part < 0 || part >= parts.len() || region < 0 {
    } else if region >= parts[part].data_regions.len() {
        lemma_runs_in_files(files, parts, part + 1, 0);
    } else {
        lemma_runs_in_files(files, parts, part, region + 1);
        let at = parts[part].data_regions[region];
        let first = Run { part, offset: at.offset + 0, len: at.len - 0 };
        let later = runs_from(parts, part, region + 1, 0);
        let runs = seq![first] + later;
        assert forall|i: int| #![trigger runs[i]] 0 <= i < runs.len() implies runs[i] == (if i
            == 0 {
            first
        } else {
            later[i - 1]
        }) by {}
    }
}

/// Whether some data region of `parts` is not empty.
pub open spec fn holds_samples(parts: Seq<PartView>) -> bool {
    skip_empty(runs_of(parts)).len() > 0
}

/// Whether the first data region of `parts` that is not empty holds a whole frame.
pub open spec fn starts_with_frame(parts: Seq<PartView>, frame_size: int) -> bool {
    holds_samples(parts) && skip_empty(runs_of(parts))[0].len >= frame_size
}

/// The contents of files as mathematical values.
pub open spec fn file_views(files: Seq<Vec<u8>>) -> Seq<Seq<u8>> {
    files.map_values(|file: Vec<u8>| file@)
}

/// Copies the first `frames` frames of a recording to one writer for each channel.
///
/// A writer without a channel is given nothing, and a channel without a writer is dropped. Where a
/// data region ends within a frame that is wanted, the frames before it are written.
pub fn demux_parts(
    files: &Vec<Vec<u8>>,
    parts: &Vec<InputPart>,
    writers: &mut Vec<Vec<u8>>,
    format: &WavFormat,
    bytes_per_sample: usize,
    frames: u64,
) -> (result: Result<(), ExtractError>)
    requires
        frames > 0 && holds_samples(crate::survey::part_views(parts@)) ==> format.block_align > 0,
        frames > 0 && starts_with_frame(
            crate::survey::part_views(parts@),
            format.block_align as int,
        ) ==> format.channels * bytes_per_sample <= format.block_align,
        regions_in_files(file_views(files@), crate::survey::part_views(parts@)),
    ensures
        final(writers)@.len() == old(writers)@.len(),
        ({
            let all = taken(
                file_views(files@),
                runs_of(crate::survey::part_views(parts@)),
                format.block_align as int,
                frames as int,
            );
            &&& result == (match all.fault {
                None => Ok::<(), ExtractError>(()),
                Some(error) => Err(error),
            })
            &&& forall|c: int|
                #![trigger final(writers)@[c]]
                0 <= c < old(writers)@.len() ==> final(writers)@[c]@ == old(writers)@[c]@ + (if c
                    < format.channels {
                    crate::frames::channel_of(
                        all.bytes,
                        format.block_align as int,
                        bytes_per_sample as int,
                        c,
                    )
                } else {
                    Seq::empty()
                })
        }),
{
    let ghost contents = file_views(files@);
    let ghost views = crate::survey::part_views(parts@);
    let ghost frame_size = format.block_align as int;
    let ghost sample_size = bytes_per_sample as int;
    let ghost all = taken(contents, runs_of(views), frame_size, frames as int);
    let ghost before = writers@;
    let channels: usize = format.channels as usize;
    let mut channel_bufs: Vec<Vec<u8>> = Vec::new();
    while channel_bufs.len() < channels
        invariant
            channel_bufs@.len() <= channels,
        decreases channels - channel_bufs@.len(),
    {
        channel_bufs.push(Vec::new());
    }
    let mut cursor = Cursor::new(frames);
    let ghost mut done: Seq<u8> = Seq::empty();
    let ghost mut count: int = 0;
    proof {
        lemma_runs_in_files(contents, views, 0, 0);
        lemma_regions_fit(files, contents, views);
        assert(done + all.bytes =~= all.bytes);
        assert(0 * frame_size == 0) by (nonlinear_arith);
        assert forall|c: int| #![trigger writers@[c]] 0 <= c < before.len() implies writers@[c]@
            == before[c]@ + written(done, frame_size, sample_size, channels as int, c, count) by {
            assert(before[c]@ + Seq::empty() =~= before[c]@);
        }
    }
    loop
        invariant_except_break
            cursor.frames_remaining > 0 && skip_empty(cursor.runs(views)).len() > 0 ==> frame_size
                > 0,
            cursor.frames_remaining > 0 && skip_empty(cursor.runs(views)).len() > 0 && skip_empty(
                cursor.runs(views),
            )[0].len >= frame_size ==> channels * sample_size <= frame_size,
            cursor.frames_remaining <= frames,
            cursor.well_formed(views),
            regions_fit(views),
            runs_in_files(contents, cursor.runs(views)),
            done + taken(
                contents,
                cursor.runs(views),
                frame_size,
                cursor.frames_remaining as int,
            ).bytes == all.bytes,
            taken(
                contents,
                cursor.runs(views),
                frame_size,
                cursor.frames_remaining as int,
            ).fault == all.fault,
        invariant
            contents == file_views(files@),
            views == crate::survey::part_views(parts@),
            frame_size == format.block_align,
            sample_size == bytes_per_sample,
            all == taken(contents, runs_of(views), frame_size, frames as int),
            before == old(writers)@,
            channels == format.channels,
            channel_bufs@.len() == channels,
            0 <= count,
            frame_size > 0 || count == 0,
            done.len() == count * frame_size,
            writers@.len() == before.len(),
            forall|c: int|
                #![trigger writers@[c]]
                0 <= c < before.len() ==> writers@[c]@ == before[c]@ + written(
                    done,
                    frame_size,
                    sample_size,
                    channels as int,
                    c,
                    count,
                ),
        ensures
            all.fault is None,
            done == all.bytes,
        decreases cursor.frames_remaining,
    {
        let ghost runs = cursor.runs(views);
        let ghost wanted = cursor.frames_remaining as int;
        proof {
            if wanted > 0 {
                lemma_taken_skip_empty(contents, runs, frame_size, wanted);
                lemma_skip_empty_first(runs);
            }
        }
        let next = cursor.next_read(parts, format.block_align);
        let piece = match next {
            Ok(Some(piece)) => piece,
            Ok(None) => {
                assert(done + Seq::empty() =~= done);
                break;
            },
            Err(error) => {
                proof {
                    lemma_short_run(contents, skip_empty(runs), frame_size, wanted);
                    assert(done + Seq::empty() =~= done);
                    lemma_written_all(done, frame_size, sample_size, channels as int, count);
                }
                return Err(error);
            },
        };
        let ghost first = skip_empty(runs)[0];
        let ghost kept = lesser(piece_frames(first.len, frame_size), wanted);
        proof {
            law_piecewise_reading(contents, skip_empty(runs), frame_size, wanted);
            lemma_piece_count(first.len, frame_size);
            assert(kept * frame_size <= piece_frames(first.len, frame_size) * frame_size)
                by (nonlinear_arith)
                requires
                    kept <= piece_frames(first.len, frame_size),
                    0 < frame_size,
            ;
        }
        let file: &Vec<u8> = &files[piece.part];
        assert(contents[piece.part as int] == file@);
        let file_len: usize = file.len();
        assert(piece.offset + piece.keep <= file_len);
        let from: usize = piece.offset as usize;
        let data = vstd::slice::slice_subrange(file.as_slice(), from, from + piece.keep);
        split_frames(
            data,
            channels,
            format.block_align as usize,
            bytes_per_sample,
            &mut channel_bufs,
        );
        let ghost middle = writers@;
        let mut w: usize = 0;
        while w < writers.len() && w < channels
            invariant
                w <= channels,
                w <= writers@.len(),
                channel_bufs@.len() == channels,
                writers@.len() == middle.len(),
                forall|c: int|
                    #![trigger writers@[c]]
                    0 <= c < middle.len() ==> writers@[c]@ == (if c < w {
                        middle[c]@ + channel_bufs@[c]@
                    } else {
                        middle[c]@
                    }),
            decreases channels - w,
        {
            append_bytes(&mut writers[w], channel_bufs[w].as_slice());
            w = w + 1;
        }
        proof {
            let more = data@;
            let rest = taken(
                contents,
                cursor.runs(views),
                frame_size,
                cursor.frames_remaining as int,
            );
            assert(done + (more + rest.bytes) =~= (done + more) + rest.bytes);
            vstd::arithmetic::div_mod::lemma_fundamental_div_mod_converse(
                more.len() as int,
                frame_size,
                kept,
                0,
            );
            assert((count + kept) * frame_size == count * frame_size + kept * frame_size)
                by (nonlinear_arith);
            assert forall|c: int| #![trigger writers@[c]] 0 <= c < before.len() implies writers@[c]@
                == before[c]@ + written(
                done + more,
                frame_size,
                sample_size,
                channels as int,
                c,
                count + kept,
            ) by {
                let old_part = written(done, frame_size, sample_size, channels as int, c, count);
                if c < channels {
                    crate::frames::lemma_channel_samples_concat(
                        done,
                        more,
                        frame_size,
                        sample_size,
                        channels as int,
                        c,
                        count,
                        kept,
                    );
                    let new_part = crate::frames::channel_of(more, frame_size, sample_size, c);
                    assert(channel_bufs@[c]@ == new_part);
                    assert(before[c]@ + old_part + new_part =~= before[c]@ + (old_part
                        + new_part));
                }
                assert(middle[c]@ == before[c]@ + old_part);
            }
            done = done + more;
            count = count + kept;
        }
    }
    proof {
        lemma_written_all(done, frame_size, sample_size, channels as int, count);
    }
    Ok(())
}

/// What stands in the writer at index `c` once the `count` frames in `done` are written.
spec fn written(
    done: Seq<u8>,
    frame_size: int,
    sample_size: int,
    channels: int,
    c: int,
    count: int,
) -> Seq<u8> {
    if c < channels {
        crate::frames::channel_samples(done, frame_size, sample_size, c, count)
    } else {
        Seq::empty()
    }
}

/// Where the written frames are whole, nothing of them is left out.
proof fn lemma_written_all(
    done: Seq<u8>,
    frame_size: int,
    sample_size: int,
    channels: int,
    count: int,
)
    requires
        frame_size > 0 || count == 0,
        0 <= count,
        done.len() == count * frame_size,
    ensures
        forall|c: int|
            written(done, frame_size, sample_size, channels, c, count) == (if c < channels {
                crate::frames::channel_of(done, frame_size, sample_size, c)
            } else {
                Seq::<u8>::empty()
            }),
{
    if frame_size > 0 {
        vstd::arithmetic::div_mod::lemma_fundamental_div_mod_converse(
            done.len() as int,
            frame_size,
            count,
            0,
        );
    }
}

/// Regions within files in memory end at offsets.
proof fn lemma_regions_fit(files: &Vec<Vec<u8>>, contents: Seq<Seq<u8>>, parts: Seq<PartView>)
    requires
        contents == file_views(files@),
        regions_in_files(contents, parts),
    ensures
        regions_fit(parts),
{
    assert forall|p: int, r: int|
        #![trigger parts[p].data_regions[r]]
        0 <= p < parts.len() && 0 <= r < parts[p].data_regions.len() implies parts[p]
        .data_regions[r].offset + parts[p].data_regions[r].len <= u64::MAX by {
        assert(contents[p] == files@[p]@);
        assert(files@[p].len() <= usize::MAX);
    }
}

} // verus!

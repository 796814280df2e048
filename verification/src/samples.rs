//! Where the samples in the output files come from.
use vstd::prelude::*;

use crate::demux::{Cursor, Run};
use crate::error::ExtractError;
use crate::parse::PartView;
use crate::run::Failure;

verus! {

/// The count of data regions in the parts before `p`.
pub open spec fn regions_before(parts: Seq<PartView>, p: int) -> int
    decreases p,
{
    if p <= 0 {
        0
    } else {
        regions_before(parts, p - 1) + parts[p - 1].data_regions.len()
    }
}

/// The byte count of the samples before region `r` of part `p`.
pub open spec fn bytes_before(parts: Seq<PartView>, p: int, r: int) -> int {
    crate::laws::parts_bytes(parts.take(p)) + crate::survey::data_bytes(
        parts[p].data_regions.take(r),
    )
}

/// Whether `parts` are what `files` say of themselves.
pub open spec fn describe(parts: Seq<PartView>, files: Seq<Seq<u8>>) -> bool {
    &&& parts.len() == files.len()
    &&& forall|p: int|
        #![trigger parts[p]]
        0 <= p < parts.len() ==> crate::parse::parsed(files[p]) == Ok::<PartView, ExtractError>(
            parts[p],
        )
}

/// Whether no file has more bytes than can be counted in 64 bits.
pub open spec fn files_fit(files: Seq<Seq<u8>>) -> bool {
    forall|i: int| #![trigger files[i]] 0 <= i < files.len() ==> files[i].len() <= u64::MAX
}

/// The bytes of parts are those of one group of them and those of the rest together, and a single
/// part has those of its regions.
pub proof fn law_parts_bytes_add_up(a: Seq<PartView>, b: Seq<PartView>)
    ensures
        crate::laws::parts_bytes(a + b) == crate::laws::parts_bytes(a)
            + crate::laws::parts_bytes(b),
        a.len() == 0 ==> crate::laws::parts_bytes(a) == 0,
        a.len() == 1 ==> crate::laws::parts_bytes(a) == crate::survey::data_bytes(
            a[0].data_regions,
        ),
    decreases b.len(),
{
    reveal_with_fuel(crate::laws::parts_bytes, 2);
    if b.len() == 0 {
        assert(a + b =~= a);
    } else {
        assert((a + b).drop_last() =~= a + b.drop_last());
        law_parts_bytes_add_up(a, b.drop_last());
    }
}

/// The runs from a region on are those of the recording from the place of that region on.
proof fn lemma_runs_from_region(parts: Seq<PartView>, p: int, r: int)
    requires
        0 <= p < parts.len(),
        0 <= r <= parts[p].data_regions.len(),
    ensures
        ({
            let runs = crate::demux::runs_of(parts);
            let at = regions_before(parts, p) + r;
            &&& 0 <= at <= runs.len()
            &&& crate::demux::runs_from(parts, p, r, 0) == runs.skip(at)
        }),
    decreases p, r,
{
    let runs = crate::demux::runs_of(parts);
    let at = regions_before(parts, p) + r;
    if r > 0 {
        lemma_runs_from_region(parts, p, r - 1);
        let before = runs.skip(at - 1);
        let region = parts[p].data_regions[r - 1];
        let first = Run { part: p, offset: region.offset + 0, len: region.len - 0 };
        let later = crate::demux::runs_from(parts, p, r, 0);
        assert(before == seq![first] + later);
        assert(before.len() > 0);
        assert((seq![first] + later).drop_first() =~= later);
        assert(before.drop_first() =~= runs.skip(at));
    } else if p > 0 {
        let count = parts[p - 1].data_regions.len() as int;
        lemma_runs_from_region(parts, p - 1, count);
        assert(crate::demux::runs_from(parts, p - 1, count, 0) == crate::demux::runs_from(
            parts,
            p,
            0,
            0,
        ));
    } else {
        assert(runs.skip(0) =~= runs);
    }
}

/// What is read of a recording is its data regions: part by part and region by region, a run with
/// the offset and the length of each, and no other.
pub proof fn law_runs_are_the_regions(parts: Seq<PartView>, p: int, r: int)
    requires
        0 <= p < parts.len(),
        0 <= r < parts[p].data_regions.len(),
    ensures
        ({
            let runs = crate::demux::runs_of(parts);
            let region = parts[p].data_regions[r];
            let at = regions_before(parts, p) + r;
            &&& runs.len() == regions_before(parts, parts.len() as int)
            &&& 0 <= at < runs.len()
            &&& runs[at] == (Run {
                part: p,
                offset: region.offset as int,
                len: region.len as int,
            })
        }),
{
    let runs = crate::demux::runs_of(parts);
    let at = regions_before(parts, p) + r;
    let region = parts[p].data_regions[r];
    lemma_runs_from_region(parts, p, r);
    let first = Run { part: p, offset: region.offset + 0, len: region.len - 0 };
    let later = crate::demux::runs_from(parts, p, r + 1, 0);
    assert(runs.skip(at) == seq![first] + later);
    assert(runs.skip(at)[0] == first);
    let last = parts.len() - 1;
    let count = parts[last].data_regions.len() as int;
    lemma_runs_from_region(parts, last, count);
    assert(crate::demux::runs_from(parts, last, count, 0) == crate::demux::runs_from(
        parts,
        last + 1,
        0,
        0,
    ));
    assert(runs.skip(regions_before(parts, parts.len() as int)).len() == 0);
}

/// Where each part has one data region, the run at index `p` is that of part `p`.
pub proof fn law_one_region_each(parts: Seq<PartView>, p: int)
    requires
        0 <= p < parts.len(),
        forall|i: int|
            #![trigger parts[i]]
            0 <= i < parts.len() ==> parts[i].data_regions.len() == 1,
    ensures
        crate::demux::runs_of(parts).len() == parts.len(),
        crate::demux::runs_of(parts)[p] == (Run {
            part: p,
            offset: parts[p].data_regions[0].offset as int,
            len: parts[p].data_regions[0].len as int,
        }),
{
    lemma_one_region_before(parts, p);
    lemma_one_region_before(parts, parts.len() as int);
    assert(parts[p].data_regions.len() == 1);
    law_runs_are_the_regions(parts, p, 0);
}

proof fn lemma_one_region_before(parts: Seq<PartView>, p: int)
    requires
        0 <= p <= parts.len(),
        forall|i: int|
            #![trigger parts[i]]
            0 <= i < parts.len() ==> parts[i].data_regions.len() == 1,
    ensures
        regions_before(parts, p) == p,
    decreases p,
{
    if p > 0 {
        lemma_one_region_before(parts, p - 1);
        assert(parts[p - 1].data_regions.len() == 1);
    }
}

/// A cursor that is some bytes into a region still has the rest of that region to read, and all
/// regions behind it. Behind the last part it has nothing to read.
pub proof fn law_cursor_has_the_rest(parts: Seq<PartView>, cursor: Cursor)
    requires
        cursor.part < parts.len() ==> cursor.region <= parts[cursor.part as int].data_regions.len(),
    ensures
        ({
            let runs = crate::demux::runs_of(parts);
            let regions = parts[cursor.part as int].data_regions;
            let at = regions_before(parts, cursor.part as int) + cursor.region;
            if cursor.part >= parts.len() {
                cursor.runs(parts).len() == 0
            } else if cursor.region == regions.len() {
                cursor.runs(parts) == runs.skip(at)
            } else {
                let region = regions[cursor.region as int];
                cursor.runs(parts) == seq![
                    Run {
                        part: cursor.part as int,
                        offset: region.offset + cursor.done,
                        len: region.len - cursor.done,
                    },
                ] + runs.skip(at + 1)
            }
        }),
{
    if cursor.part < parts.len() {
        let p = cursor.part as int;
        if cursor.region < parts[p].data_regions.len() {
            lemma_runs_from_region(parts, p, cursor.region + 1);
        } else {
            lemma_runs_from_region(parts, p, cursor.region as int);
            assert(crate::demux::runs_from(parts, p, cursor.region as int, 0)
                == crate::demux::runs_from(parts, p + 1, 0, 0));
            assert(cursor.runs(parts) == crate::demux::runs_from(parts, p + 1, 0, 0));
        }
    }
}

/// A run without its first bytes starts behind them and ends where it did.
pub proof fn law_run_without_its_start(run: Run, n: int)
    ensures
        run.without(n).part == run.part,
        run.without(n).offset == run.offset + n,
        run.without(n).offset + run.without(n).len == run.offset + run.len,
{
}

/// A piece holds whole frames of its run: all of them, or as many as go in one piece.
pub proof fn law_pieces_are_whole_frames(frames: int, rest: int, frame_size: int)
    requires
        0 <= rest < frame_size,
        0 <= frames,
    ensures
        frames <= 4096 ==> crate::demux::piece_frames(frames * frame_size + rest, frame_size)
            == frames,
        frames > 4096 ==> crate::demux::piece_frames(frames * frame_size + rest, frame_size)
            == 4096,
{
    vstd::arithmetic::div_mod::lemma_fundamental_div_mod_converse(
        frames * frame_size + rest,
        frame_size,
        frames,
        rest,
    );
}

/// A recording holds samples exactly where one of its data regions is not empty, and it starts with
/// a frame exactly where the first such region is as long as one.
pub proof fn law_first_region_with_samples(parts: Seq<PartView>, k: int, frame_size: int)
    requires
        0 <= k <= crate::demux::runs_of(parts).len(),
        forall|i: int|
            #![trigger crate::demux::runs_of(parts)[i]]
            0 <= i < k ==> crate::demux::runs_of(parts)[i].len <= 0,
        k < crate::demux::runs_of(parts).len() ==> crate::demux::runs_of(parts)[k].len > 0,
    ensures
        crate::demux::holds_samples(parts) <==> k < crate::demux::runs_of(parts).len(),
        crate::demux::starts_with_frame(parts, frame_size) <==> k < crate::demux::runs_of(
            parts,
        ).len() && crate::demux::runs_of(parts)[k].len >= frame_size,
{
    let runs = crate::demux::runs_of(parts);
    let found = law_empty_runs_are_skipped(runs);
    if found < k {
        assert(runs[found].len <= 0);
    } else if k < found {
        assert(runs[k].len <= 0);
    }
    if k < runs.len() {
        assert(runs.skip(k)[0] == runs[k]);
    }
}

/// Files are seen as they stand, in their order.
pub proof fn law_files_as_they_stand(files: Seq<Vec<u8>>, i: int)
    requires
        0 <= i < files.len(),
    ensures
        crate::demux::file_views(files).len() == files.len(),
        crate::demux::file_views(files)[i] == files[i]@,
{
}

/// Of runs from which empty ones are skipped, the first is the first that is not empty.
pub proof fn law_empty_runs_are_skipped(runs: Seq<Run>) -> (k: int)
    ensures
        0 <= k <= runs.len(),
        crate::demux::skip_empty(runs) == runs.skip(k),
        forall|i: int| #![trigger runs[i]] 0 <= i < k ==> runs[i].len <= 0,
        k < runs.len() ==> runs[k].len > 0,
    decreases runs.len(),
{
    if runs.len() > 0 && runs[0].len <= 0 {
        let rest = runs.drop_first();
        let k = law_empty_runs_are_skipped(rest);
        assert(rest.skip(k) =~= runs.skip(k + 1));
        assert forall|i: int| #![trigger runs[i]] 0 <= i < k + 1 implies runs[i].len <= 0 by {
            if i > 0 {
                assert(rest[i - 1] == runs[i]);
            }
        }
        if k < rest.len() {
            assert(rest[k] == runs[k + 1]);
        }
        k + 1
    } else {
        assert(runs.skip(0) =~= runs);
        0
    }
}

/// The bytes of a run stand behind those of the runs before it.
proof fn lemma_run_bytes_at(files: Seq<Seq<u8>>, runs: Seq<Run>, k: int, i: int)
    requires
        crate::demux::runs_in_files(files, runs),
        0 <= k < runs.len(),
        0 <= i < runs[k].len,
    ensures
        ({
            let at = crate::laws::runs_len(runs.take(k)) + i;
            &&& 0 <= at < crate::laws::runs_bytes(files, runs).len()
            &&& crate::laws::runs_bytes(files, runs)[at] == files[runs[k].part][runs[k].offset + i]
        }),
    decreases k,
{
    let rest = runs.drop_first();
    crate::laws::lemma_rest_in_files(files, runs);
    crate::laws::lemma_runs_bytes_len(files, rest);
    crate::laws::lemma_runs_bytes_len(files, runs);
    lemma_runs_len_positive(rest);
    if k > 0 {
        lemma_run_bytes_at(files, rest, k - 1, i);
        assert(runs.take(k).drop_first() =~= rest.take(k - 1));
        assert(runs.take(k)[0] == runs[0]);
    }
}

proof fn lemma_runs_len_positive(runs: Seq<Run>)
    requires
        forall|i: int| #![trigger runs[i]] 0 <= i < runs.len() ==> 0 <= runs[i].len,
    ensures
        0 <= crate::laws::runs_len(runs),
    decreases runs.len(),
{
    if runs.len() > 0 {
        let rest = runs.drop_first();
        assert forall|i: int| #![trigger rest[i]] 0 <= i < rest.len() implies 0
            <= rest[i].len by {
            assert(rest[i] == runs[i + 1]);
        }
        lemma_runs_len_positive(rest);
    }
}

proof fn lemma_runs_len_split(runs: Seq<Run>, k: int)
    requires
        0 <= k <= runs.len(),
    ensures
        crate::laws::runs_len(runs) == crate::laws::runs_len(runs.take(k)) + crate::laws::runs_len(
            runs.skip(k),
        ),
    decreases k,
{
    if k > 0 {
        let rest = runs.drop_first();
        lemma_runs_len_split(rest, k - 1);
        assert(runs.take(k).drop_first() =~= rest.take(k - 1));
        assert(runs.skip(k) =~= rest.skip(k - 1));
    } else {
        assert(runs.skip(0) =~= runs);
    }
}

/// The bytes before a region are those of the runs before its run.
proof fn lemma_bytes_before(parts: Seq<PartView>, p: int, r: int)
    requires
        0 <= p < parts.len(),
        0 <= r <= parts[p].data_regions.len(),
    ensures
        crate::laws::runs_len(crate::demux::runs_of(parts).take(regions_before(parts, p) + r))
            == bytes_before(parts, p, r),
        crate::laws::runs_len(crate::demux::runs_of(parts)) == crate::laws::parts_bytes(parts),
{
    let runs = crate::demux::runs_of(parts);
    let at = regions_before(parts, p) + r;
    lemma_runs_from_region(parts, p, r);
    lemma_runs_len_split(runs, at);
    crate::laws::lemma_runs_len(parts, p, r);
    crate::laws::lemma_runs_len(parts, 0, 0);
    assert(parts[0].data_regions.take(0) =~= Seq::empty());
    assert(parts.take(0) =~= Seq::empty());
}

/// What is read is the samples as they stand in the files: byte `i` of region `r` of part `p`
/// stands behind the bytes of all regions before that one.
#[verifier::spinoff_prover]
pub proof fn law_read_bytes_are_region_bytes(
    files: Seq<Seq<u8>>,
    parts: Seq<PartView>,
    frame_size: int,
    frames: int,
    p: int,
    r: int,
    i: int,
)
    requires
        0 < frame_size,
        crate::demux::regions_in_files(files, parts),
        0 <= p < parts.len(),
        0 <= r < parts[p].data_regions.len(),
        0 <= i < parts[p].data_regions[r].len,
        bytes_before(parts, p, r) + i < crate::demux::taken(
            files,
            crate::demux::runs_of(parts),
            frame_size,
            frames,
        ).bytes.len(),
    ensures
        0 <= bytes_before(parts, p, r),
        crate::demux::taken(
            files,
            crate::demux::runs_of(parts),
            frame_size,
            frames,
        ).bytes[bytes_before(parts, p, r) + i] == files[p][parts[p].data_regions[r].offset + i],
{
    let runs = crate::demux::runs_of(parts);
    let at = regions_before(parts, p) + r;
    let bytes = crate::demux::taken(files, runs, frame_size, frames).bytes;
    let j = bytes_before(parts, p, r) + i;
    crate::demux::lemma_runs_in_files(files, parts, 0, 0);
    law_runs_are_the_regions(parts, p, r);
    lemma_bytes_before(parts, p, r);
    let before = runs.take(at);
    assert forall|m: int| #![trigger before[m]] 0 <= m < before.len() implies 0
        <= before[m].len by {
        assert(before[m] == runs[m]);
    }
    lemma_runs_len_positive(before);
    lemma_run_bytes_at(files, runs, at, i);
    crate::laws::law_read_is_start_of_all(files, runs, frame_size, frames);
    assert(bytes[j] == crate::laws::runs_bytes(files, runs)[j]);
}

/// How far the reading of runs comes, where the one at `k` is the first that ends within a frame:
/// frames up to the last whole one in it can be read, and a frame beyond is a fault of that part.
#[verifier::spinoff_prover]
pub proof fn law_reading_ends_within_a_frame(
    files: Seq<Seq<u8>>,
    runs: Seq<Run>,
    frame_size: int,
    frames: int,
    k: int,
)
    requires
        0 < frame_size,
        0 <= frames,
        crate::demux::runs_in_files(files, runs),
        0 <= k < runs.len(),
        forall|i: int| #![trigger runs[i]] 0 <= i < k ==> runs[i].len % frame_size == 0,
        runs[k].len % frame_size != 0,
    ensures
        ({
            let whole = crate::laws::runs_len(runs.take(k)) + runs[k].len - runs[k].len
                % frame_size;
            let all = crate::demux::taken(files, runs, frame_size, frames);
            let bytes = crate::laws::runs_bytes(files, runs);
            &&& frames * frame_size <= whole ==> all.fault is None && all.bytes == bytes.take(
                frames * frame_size,
            )
            &&& frames * frame_size > whole ==> all.fault == Some(
                ExtractError::UnalignedChunk(runs[k].part as usize),
            ) && all.bytes == bytes.take(whole)
        }),
{
    lemma_reading_ends(files, runs, frame_size, frames, k);
    crate::laws::law_read_is_start_of_all(files, runs, frame_size, frames);
    let all = crate::demux::taken(files, runs, frame_size, frames);
    let bytes = crate::laws::runs_bytes(files, runs);
    assert(all.bytes =~= bytes.take(all.bytes.len() as int));
}

#[verifier::spinoff_prover]
proof fn lemma_reading_ends(
    files: Seq<Seq<u8>>,
    runs: Seq<Run>,
    frame_size: int,
    frames: int,
    k: int,
)
    requires
        0 < frame_size,
        0 <= frames,
        crate::demux::runs_in_files(files, runs),
        0 <= k < runs.len(),
        forall|i: int| #![trigger runs[i]] 0 <= i < k ==> runs[i].len % frame_size == 0,
        runs[k].len % frame_size != 0,
    ensures
        ({
            let whole = crate::laws::runs_len(runs.take(k)) + runs[k].len - runs[k].len
                % frame_size;
            let all = crate::demux::taken(files, runs, frame_size, frames);
            &&& 0 <= whole
            &&& frames * frame_size <= whole ==> all.fault is None && all.bytes.len() == frames
                * frame_size
            &&& frames * frame_size > whole ==> all.fault == Some(
                ExtractError::UnalignedChunk(runs[k].part as usize),
            ) && all.bytes.len() == whole
        }),
    decreases k,
{
    let run = runs[0];
    let rest = runs.drop_first();
    crate::laws::lemma_rest_in_files(files, runs);
    if frames == 0 {
        assert(0 * frame_size == 0) by (nonlinear_arith);
    } else {
        crate::laws::lemma_first_run(run, frame_size, frames);
    }
    let q = run.len / frame_size;
    vstd::arithmetic::div_mod::lemma_fundamental_div_mod(run.len, frame_size);
    vstd::arithmetic::div_mod::lemma_div_pos_is_pos(run.len, frame_size);
    assert(q * frame_size == frame_size * q) by (nonlinear_arith);
    assert(0 <= q * frame_size) by (nonlinear_arith)
        requires
            0 <= q,
            0 < frame_size,
    ;
    assert(frames <= q ==> frames * frame_size <= q * frame_size) by (nonlinear_arith)
        requires
            0 < frame_size,
    ;
    assert(frames > q ==> frames * frame_size > q * frame_size) by (nonlinear_arith)
        requires
            0 < frame_size,
    ;
    if k == 0 {
        assert(runs.take(0) =~= Seq::empty());
        if frames > 0 && q >= frames {
            assert(crate::demux::taken(files, rest, frame_size, 0).bytes.len() == 0);
        }
    } else {
        assert forall|i: int| #![trigger rest[i]] 0 <= i < k - 1 implies rest[i].len % frame_size
            == 0 by {
            assert(rest[i] == runs[i + 1]);
        }
        assert(rest[k - 1] == runs[k]);
        assert(runs[0].len % frame_size == 0);
        assert(runs.take(k).drop_first() =~= rest.take(k - 1));
        assert(runs.take(k)[0] == run);
        let count = crate::demux::lesser(q, frames);
        if frames == 0 {
            lemma_reading_ends(files, rest, frame_size, 0, k - 1);
        } else if run.len <= 0 {
            lemma_reading_ends(files, rest, frame_size, frames, k - 1);
        } else {
            lemma_reading_ends(files, rest, frame_size, frames - count, k - 1);
            if count == frames {
                assert(0 * frame_size == 0) by (nonlinear_arith);
            }
        }
    }
}

/// Parts make up a recording exactly where each has samples, in whole frames, all have the format
/// of the first, and their frames can be counted in 64 bits.
pub proof fn law_recordings(files: Seq<Seq<u8>>, parts: Seq<PartView>)
    requires
        describe(parts, files),
        forall|p: int|
            #![trigger parts[p]]
            0 <= p < parts.len() ==> parts[p].format.block_align > 0,
    ensures
        crate::run::surveyed(files) is Ok <==> {
            &&& forall|p: int|
                #![trigger parts[p]]
                0 <= p < parts.len() ==> {
                    &&& parts[p].data_regions.len() > 0
                    &&& crate::survey::data_bytes(parts[p].data_regions) % (
                    parts[p].format.block_align as int) == 0
                    &&& parts[p].format == parts[0].format
                }
            &&& crate::survey::frames_of(parts) <= u64::MAX
        },
        crate::run::surveyed(files) is Ok ==> crate::run::surveyed(files) == Ok::<
            Seq<PartView>,
            Failure,
        >(parts),
    decreases files.len(),
{
    if crate::run::surveyed(files) is Ok {
        crate::run::lemma_surveyed_parts(files);
        crate::run::lemma_surveyed_recording(files);
        let found = crate::run::surveyed(files)->Ok_0;
        assert forall|p: int| 0 <= p < parts.len() implies found[p] == parts[p] by {
            assert(crate::parse::parsed(files[p]) == Ok::<PartView, ExtractError>(parts[p]));
            assert(crate::parse::parsed(files[p]) == Ok::<PartView, ExtractError>(found[p]));
        }
        assert(found =~= parts);
    } else if files.len() > 0 {
        let fewer = files.drop_last();
        let rest = parts.drop_last();
        let last = parts.last();
        assert(parts[parts.len() - 1] == last);
        assert forall|p: int| #![trigger rest[p]] 0 <= p < rest.len() implies rest[p] == parts[p]
            && fewer[p] == files[p] by {}
        law_recordings(fewer, rest);
        if crate::survey::frames_of(parts) <= u64::MAX && (forall|p: int|
            #![trigger parts[p]]
            0 <= p < parts.len() ==> {
                &&& parts[p].data_regions.len() > 0
                &&& crate::survey::data_bytes(parts[p].data_regions) % (
                parts[p].format.block_align as int) == 0
                &&& parts[p].format == parts[0].format
            }) {
            assert(crate::survey::one_recording(parts));
            crate::survey::lemma_data_bytes_prefix(last.data_regions, 0);
            vstd::arithmetic::div_mod::lemma_div_pos_is_pos(
                crate::survey::data_bytes(last.data_regions),
                last.format.block_align as int,
            );
            assert forall|p: int| #![trigger rest[p]] 0 <= p < rest.len() implies {
                &&& rest[p].data_regions.len() > 0
                &&& crate::survey::data_bytes(rest[p].data_regions) % (
                rest[p].format.block_align as int) == 0
                &&& rest[p].format == rest[0].format
            } by {
                assert(rest[p] == parts[p]);
                assert(rest[0] == parts[0]);
            }
            assert(crate::run::surveyed(fewer) is Ok);
            assert(files.last() == files[files.len() - 1]);
        }
    }
}

/// The first file that does not belong to the recording is named, with the reason, whatever
/// follows it.
pub proof fn law_first_bad_file_is_named(files: Seq<Seq<u8>>, i: int)
    requires
        0 <= i < files.len() <= usize::MAX,
        crate::run::surveyed(files.take(i)) is Ok,
    ensures
        ({
            let before = crate::run::surveyed(files.take(i))->Ok_0;
            match crate::parse::parsed(files[i]) {
                Err(error) => crate::run::surveyed(files) == Err::<Seq<PartView>, Failure>(
                    Failure { file: Some(i as usize), error },
                ),
                Ok(part) => part.fault(
                    crate::survey::format_of(before),
                    crate::survey::frames_of(before),
                ) matches Some(error) ==> crate::run::surveyed(files) == Err::<
                    Seq<PartView>,
                    Failure,
                >(Failure { file: Some(i as usize), error }),
            }
        }),
{
    let start = files.take(i + 1);
    assert(start.drop_last() =~= files.take(i));
    assert(start.last() == files[i]);
    if crate::run::surveyed(start) is Err {
        crate::run::lemma_surveyed_fails(files, i + 1);
    }
}

/// Where an extraction does not fail, there is one output for each channel of the recording, with
/// the next number each. Each starts with the header of a mono file.
#[verifier::spinoff_prover]
pub proof fn law_one_output_per_channel(
    files: Seq<Seq<u8>>,
    parts: Seq<PartView>,
    prefix: Seq<char>,
    channel_start: int,
    max_frames: Option<u64>,
    c: int,
)
    requires
        files_fit(files),
        describe(parts, files),
        crate::run::extraction(files, prefix, channel_start, max_frames).failure is None,
        0 <= c < parts[0].format.channels,
    ensures
        ({
            let outputs = crate::run::extraction(
                files,
                prefix,
                channel_start,
                max_frames,
            ).outputs;
            let format = parts[0].format;
            &&& parts.len() > 0
            &&& outputs.len() == format.channels
            &&& outputs[c].name == crate::output::output_name(prefix, channel_start + c)
            &&& outputs[c].bytes.len() >= 44
            &&& outputs[c].bytes.take(44) == crate::header::wav_header(
                format.audio_format,
                1,
                format.sample_rate,
                format.bits_per_sample,
                (outputs[c].bytes.len() - 44) as u32,
            )
        }),
{
    lemma_described(files, parts);
    crate::run::law_outputs_are_the_channels(files, prefix, channel_start, max_frames, c);
    let plan = crate::survey::planned(parts, max_frames);
    let format = plan.format;
    let sample_size = crate::format::sample_bytes(format.bits_per_sample);
    let output = crate::run::extraction(files, prefix, channel_start, max_frames).outputs[c];
    let header = crate::header::wav_header(
        format.audio_format,
        1,
        format.sample_rate,
        format.bits_per_sample,
        (plan.frames_to_write * sample_size) as u32,
    );
    assert(header.len() == 44);
    assert(output.bytes.take(44) =~= header);
}

/// Files that are extracted are described by the parts of their recording.
proof fn lemma_described(files: Seq<Seq<u8>>, parts: Seq<PartView>)
    requires
        describe(parts, files),
    ensures
        crate::run::surveyed(files) is Ok ==> crate::run::surveyed(files)->Ok_0 == parts,
{
    if crate::run::surveyed(files) is Ok {
        crate::run::lemma_surveyed_parts(files);
        let found = crate::run::surveyed(files)->Ok_0;
        assert forall|p: int| 0 <= p < parts.len() implies found[p] == parts[p] by {
            assert(crate::parse::parsed(files[p]) == Ok::<PartView, ExtractError>(parts[p]));
            assert(crate::parse::parsed(files[p]) == Ok::<PartView, ExtractError>(found[p]));
        }
        assert(found =~= parts);
    }
}

/// Each output has one sample for each frame that the data regions of the files hold, or for as
/// many of them as the limit allows.
#[verifier::spinoff_prover]
pub proof fn law_outputs_hold_every_frame(
    files: Seq<Seq<u8>>,
    parts: Seq<PartView>,
    prefix: Seq<char>,
    channel_start: int,
    max_frames: Option<u64>,
    c: int,
) -> (frames: int)
    requires
        files_fit(files),
        describe(parts, files),
        crate::run::extraction(files, prefix, channel_start, max_frames).failure is None,
        0 <= c < parts[0].format.channels,
    ensures
        ({
            let outputs = crate::run::extraction(
                files,
                prefix,
                channel_start,
                max_frames,
            ).outputs;
            let format = parts[0].format;
            &&& frames * format.block_align == crate::laws::parts_bytes(parts)
            &&& outputs[c].bytes.len() == 44 + crate::format::sample_bytes(format.bits_per_sample)
                * (match max_frames {
                Some(limit) if limit < frames => limit as int,
                _ => frames,
            })
        }),
{
    lemma_described(files, parts);
    crate::run::lemma_extracted_frames(files, prefix, channel_start, max_frames);
    crate::run::law_outputs_are_the_channels(files, prefix, channel_start, max_frames, c);
    let frame_size = parts[0].format.block_align as int;
    let frames = crate::survey::frames_of(parts);
    crate::laws::lemma_parts_bytes(parts, frame_size);
    let wanted = match max_frames {
        Some(limit) if limit < frames => limit as int,
        _ => frames,
    };
    let sample_size = crate::format::sample_bytes(parts[0].format.bits_per_sample);
    assert(wanted * sample_size == sample_size * wanted) by (nonlinear_arith);
    frames
}

/// Each byte of an output is a byte of a data region of the files: the one that stands in the frame
/// and in the sample where the output has it.
#[verifier::spinoff_prover]
pub proof fn law_output_bytes_are_region_bytes(
    files: Seq<Seq<u8>>,
    parts: Seq<PartView>,
    prefix: Seq<char>,
    channel_start: int,
    max_frames: Option<u64>,
    c: int,
    frame: int,
    b: int,
    p: int,
    r: int,
    i: int,
)
    requires
        files_fit(files),
        describe(parts, files),
        crate::run::extraction(files, prefix, channel_start, max_frames).failure is None,
        0 <= c < parts[0].format.channels,
        0 <= frame,
        max_frames matches Some(limit) ==> frame < limit,
        0 <= b < crate::format::sample_bytes(parts[0].format.bits_per_sample),
        0 <= p < parts.len(),
        0 <= r < parts[p].data_regions.len(),
        0 <= i < parts[p].data_regions[r].len,
        frame * parts[0].format.block_align + c * crate::format::sample_bytes(
            parts[0].format.bits_per_sample,
        ) + b == bytes_before(parts, p, r) + i,
    ensures
        ({
            let output = crate::run::extraction(
                files,
                prefix,
                channel_start,
                max_frames,
            ).outputs[c];
            let at = 44 + frame * crate::format::sample_bytes(parts[0].format.bits_per_sample) + b;
            &&& 0 <= at < output.bytes.len()
            &&& output.bytes[at] == files[p][parts[p].data_regions[r].offset + i]
        }),
{
    lemma_described(files, parts);
    crate::run::lemma_extracted_frames(files, prefix, channel_start, max_frames);
    crate::run::law_outputs_are_the_channels(files, prefix, channel_start, max_frames, c);
    let format = parts[0].format;
    let plan = crate::survey::planned(parts, max_frames);
    let sample_size = crate::format::sample_bytes(format.bits_per_sample);
    let frame_size = format.block_align as int;
    let channels = format.channels as int;
    let total = crate::survey::frames_of(parts);
    let wanted = plan.frames_to_write as int;
    let runs = crate::demux::runs_of(parts);
    let all = crate::demux::taken(files, runs, frame_size, wanted);
    let output = crate::run::extraction(files, prefix, channel_start, max_frames).outputs[c];
    let place = regions_before(parts, p) + r;
    // The frame is one of the recording.
    law_runs_are_the_regions(parts, p, r);
    lemma_bytes_before(parts, p, r);
    crate::demux::lemma_runs_in_files(files, parts, 0, 0);
    lemma_run_bytes_at(files, runs, place, i);
    assert(0 <= c * sample_size && c * sample_size + sample_size <= frame_size)
        by (nonlinear_arith)
        requires
            0 <= c < channels,
            0 <= sample_size,
            channels * sample_size <= frame_size,
    ;
    assert(frame < total) by (nonlinear_arith)
        requires
            frame * frame_size < total * frame_size,
            0 < frame_size,
    ;
    assert(frame < wanted);
    assert((frame + 1) * frame_size <= wanted * frame_size && (frame + 1) * frame_size == frame
        * frame_size + frame_size) by (nonlinear_arith)
        requires
            frame + 1 <= wanted,
            0 < frame_size,
    ;
    assert(all.bytes.len() == wanted * frame_size);
    law_read_bytes_are_region_bytes(files, parts, frame_size, wanted, p, r, i);
    vstd::arithmetic::div_mod::lemma_fundamental_div_mod_converse(
        all.bytes.len() as int,
        frame_size,
        wanted,
        0,
    );
    crate::laws::law_split_is_lossless(
        all.bytes,
        frame_size,
        sample_size,
        channels,
        c,
        frame,
        b,
    );
    assert(0 <= frame * sample_size) by (nonlinear_arith)
        requires
            0 <= frame,
            0 <= sample_size,
    ;
    assert(output.bytes.skip(44)[frame * sample_size + b] == output.bytes[44 + (frame * sample_size
        + b)]);
}

/// Files with one data chunk of whole frames each, in one format that can be split, are extracted,
/// wherever the outputs fit in WAV files.
#[verifier::spinoff_prover]
pub proof fn law_proper_recordings_are_extracted(
    files: Seq<Seq<u8>>,
    parts: Seq<PartView>,
    prefix: Seq<char>,
    channel_start: int,
    max_frames: Option<u64>,
    frames: int,
)
    requires
        files_fit(files),
        describe(parts, files),
        parts.len() > 0,
        forall|p: int|
            #![trigger parts[p]]
            0 <= p < parts.len() ==> {
                &&& parts[p].data_regions.len() == 1
                &&& parts[p].data_regions[0].len as int % parts[0].format.block_align as int == 0
                &&& parts[p].format == parts[0].format
            },
        parts[0].format.fault() is None,
        crate::laws::parts_bytes(parts) == frames * parts[0].format.block_align,
        frames <= u64::MAX,
        ({
            let sample_size = crate::format::sample_bytes(parts[0].format.bits_per_sample);
            &&& parts[0].format.sample_rate * sample_size < 0x1_0000_0000
            &&& 36 + frames * sample_size < 0x1_0000_0000 || (max_frames matches Some(limit) && 36
                + limit * sample_size < 0x1_0000_0000)
        }),
    ensures
        crate::run::extraction(files, prefix, channel_start, max_frames).failure is None,
{
    let format = parts[0].format;
    let frame_size = format.block_align as int;
    let sample_size = crate::format::sample_bytes(format.bits_per_sample);
    assert(0 < format.channels * sample_size) by (nonlinear_arith)
        requires
            0 < format.channels,
            0 < sample_size,
    ;
    assert forall|p: int|
        #![trigger parts[p]]
        0 <= p < parts.len() implies crate::survey::data_bytes(parts[p].data_regions) % frame_size
        == 0 && parts[p].format.block_align == frame_size by {
        crate::survey::law_data_bytes_add_up(parts[p].data_regions, Seq::empty());
    }
    crate::laws::lemma_parts_bytes(parts, frame_size);
    let total = crate::survey::frames_of(parts);
    assert(total == frames) by (nonlinear_arith)
        requires
            total * frame_size == frames * frame_size,
            0 < frame_size,
    ;
    law_recordings(files, parts);
    crate::run::lemma_surveyed_regions(files);
    assert(crate::survey::one_recording(parts));
    crate::run::lemma_frames_of_positive(parts);
    let wanted = crate::survey::planned(parts, max_frames).frames_to_write;
    crate::survey::law_limit_only_shortens(
        parts,
        match max_frames {
            Some(limit) => limit,
            None => 0,
        },
    );
    assert(wanted * sample_size <= frames * sample_size) by (nonlinear_arith)
        requires
            wanted <= frames,
            0 < sample_size,
    ;
    if let Some(limit) = max_frames {
        assert(wanted * sample_size <= limit * sample_size) by (nonlinear_arith)
            requires
                wanted <= limit,
                0 < sample_size,
        ;
    }
    crate::output::law_refused_sizes(wanted, sample_size as usize);
    crate::output::law_outputs_are_mono(format, wanted, sample_size as usize);
    crate::laws::law_single_chunks_are_extracted(files, parts, wanted as int);
}

/// What an extraction fails for, in this order: there are no files, a file does not belong to the
/// recording, the format cannot be split, the outputs are too large, their header cannot be
/// written, or a data chunk ends within a wanted frame. Up to the size no file is created, and
/// for the header an empty one.
#[verifier::spinoff_prover]
pub proof fn law_failures_in_order(
    files: Seq<Seq<u8>>,
    prefix: Seq<char>,
    channel_start: int,
    max_frames: Option<u64>,
)
    ensures
        ({
            let left = crate::run::extraction(files, prefix, channel_start, max_frames);
            match crate::run::surveyed(files) {
                Err(failure) => left.failure == Some(failure) && left.outputs.len() == 0,
                Ok(parts) => if files.len() == 0 {
                    left.failure == Some(
                        Failure { file: None, error: ExtractError::NoWavFiles },
                    ) && left.outputs.len() == 0
                } else {
                    let plan = crate::survey::planned(parts, max_frames);
                    let bytes = crate::format::sample_bytes(plan.format.bits_per_sample) as usize;
                    let size = crate::output::size_fault(plan.frames_to_write, bytes);
                    let header = crate::output::mono_header_fault(
                        plan.format,
                        plan.frames_to_write,
                        bytes,
                    );
                    let reading = crate::demux::taken(
                        files,
                        crate::demux::runs_of(parts),
                        plan.format.block_align as int,
                        plan.frames_to_write as int,
                    ).fault;
                    if let Some(error) = plan.format.fault() {
                        left.failure == Some(Failure { file: None, error }) && left.outputs.len()
                            == 0
                    } else if let Some(error) = size {
                        left.failure == Some(Failure { file: None, error }) && left.outputs.len()
                            == 0
                    } else if let Some(error) = header {
                        &&& left.failure == Some(Failure { file: None, error })
                        &&& left.outputs.len() == 1
                        &&& left.outputs[0].name == crate::output::output_name(
                            prefix,
                            channel_start,
                        )
                        &&& left.outputs[0].bytes.len() == 0
                    } else if let Some(error) = reading {
                        left.failure == Some(Failure { file: None, error }) && left.outputs.len()
                            == plan.format.channels
                    } else {
                        left.failure is None && left.outputs.len() == plan.format.channels
                    }
                },
            }
        }),
{
    if crate::run::surveyed(files) is Ok {
        crate::run::lemma_surveyed_parts(files);
    }
}

/// Files can be extracted under any numbers that fit a machine word, unless one declares frames
/// of no bytes.
pub proof fn law_admitted_files(
    files: Seq<Seq<u8>>,
    channel_start: usize,
    max_frames: Option<u64>,
)
    requires
        forall|i: int|
            #![trigger files[i]]
            0 <= i < files.len() ==> (crate::parse::parsed(files[i]) matches Ok(part)
                ==> part.format.block_align > 0),
        channel_start + u16::MAX <= usize::MAX,
    ensures
        !crate::run::has_empty_frames(files),
        crate::run::within_limits(files, channel_start, max_frames),
    decreases files.len(),
{
    if files.len() > 0 {
        let rest = files.drop_last();
        assert forall|i: int| #![trigger rest[i]] 0 <= i < rest.len() implies (
        crate::parse::parsed(rest[i]) matches Ok(part) ==> part.format.block_align > 0) by {
            assert(rest[i] == files[i]);
        }
        law_admitted_files(rest, channel_start, max_frames);
        assert(files[files.len() - 1] == files.last());
    }
}

} // verus!

//! What holds of the extraction as a whole.
use vstd::prelude::*;

use crate::demux::{Run, Taken};
use crate::error::ExtractError;
use crate::format::WavFormat;
use crate::parse::{DataRegion, PartView};

verus! {

/// Whether the regions stand one behind the other in `file` before `to`, each behind the name and
/// size of a `data` chunk.
pub open spec fn regions_in_order(file: Seq<u8>, regions: Seq<DataRegion>, to: int) -> bool {
    &&& forall|i: int|
        #![trigger regions[i]]
        0 <= i < regions.len() ==> {
            &&& crate::parse::RIFF_LEN + crate::parse::CHUNK_HEADER_LEN <= regions[i].offset
            &&& crate::parse::tag_at(
                file,
                regions[i].offset - crate::parse::CHUNK_HEADER_LEN,
                crate::parse::data_tag(),
            )
            &&& regions[i].offset + regions[i].len <= to
        }
    &&& forall|i: int, j: int|
        #![trigger regions[i], regions[j]]
        0 <= i < j < regions.len() ==> regions[i].offset + regions[i].len
            + crate::parse::CHUNK_HEADER_LEN <= regions[j].offset
}

proof fn lemma_chunks_in_order(
    file: Seq<u8>,
    pos: int,
    format: Option<WavFormat>,
    regions: Seq<DataRegion>,
)
    requires
        file.len() <= u64::MAX,
        crate::parse::RIFF_LEN <= pos,
        regions_in_order(file, regions, pos),
        regions_in_order(file, regions, file.len() as int),
    ensures
        crate::parse::chunks_from(file, pos, format, regions) matches Ok(part)
            ==> regions_in_order(file, part.data_regions, file.len() as int),
    decreases crate::parse::bytes_left(file.len() as int, pos),
{
    let payload = pos + crate::parse::CHUNK_HEADER_LEN;
    let size = crate::bytes::le32_at(file, pos + 4);
    let available = file.len() - payload;
    let next = crate::parse::next_chunk(payload, size);
    if payload > file.len() {
    } else if crate::parse::tag_at(file, pos, crate::parse::fmt_tag()) {
        if size <= available && size >= crate::parse::MIN_FORMAT_LEN {
            let declared = crate::parse::declared_format(file.subrange(payload, payload + size));
            lemma_chunks_in_order(file, next, Some(declared), regions);
        }
    } else if crate::parse::tag_at(file, pos, crate::parse::data_tag()) {
        let len = if size > available {
            available
        } else {
            size as int
        };
        let more = regions.push(DataRegion { offset: payload as u64, len: len as u64 });
        assert(regions_in_order(file, more, file.len() as int));
        if size <= available {
            assert(regions_in_order(file, more, next));
            lemma_chunks_in_order(file, next, format, more);
        }
    } else {
        lemma_chunks_in_order(file, next, format, regions);
    }
}

/// The data regions of a file stand within the file, behind the name and size of a `data` chunk
/// each, in order and apart.
pub proof fn law_regions_in_file(file: Seq<u8>)
    requires
        file.len() <= u64::MAX,
    ensures
        crate::parse::parsed(file) matches Ok(part) ==> regions_in_order(
            file,
            part.data_regions,
            file.len() as int,
        ),
{
    lemma_chunks_in_order(file, crate::parse::RIFF_LEN as int, None, Seq::empty());
}

proof fn lemma_data_bytes_in_order(file: Seq<u8>, regions: Seq<DataRegion>, to: int)
    requires
        regions_in_order(file, regions, to),
        0 <= to,
    ensures
        crate::survey::data_bytes(regions) <= to,
    decreases regions.len(),
{
    if regions.len() > 0 {
        let last = regions.last();
        let rest = regions.drop_last();
        assert forall|i: int| #![trigger rest[i]] 0 <= i < rest.len() implies rest[i]
            == regions[i] by {}
        lemma_data_bytes_in_order(file, rest, last.offset as int);
    }
}

/// The data regions of a file hold no more bytes than the file.
pub proof fn law_data_fits_file(file: Seq<u8>)
    requires
        file.len() <= u64::MAX,
    ensures
        crate::parse::parsed(file) matches Ok(part) ==> crate::survey::data_bytes(
            part.data_regions,
        ) <= file.len(),
{
    law_regions_in_file(file);
    if let Ok(part) = crate::parse::parsed(file) {
        lemma_data_bytes_in_order(file, part.data_regions, file.len() as int);
    }
}

/// A WAV file that is written is read back: behind the header for `data_size` bytes, with no more
/// than that many bytes of samples, the file declares the format that the header was written
/// with, and its one data region is the samples.
pub proof fn law_header_reads_back(
    audio_format: u16,
    channels: u16,
    sample_rate: u32,
    bits_per_sample: u16,
    data_size: u32,
    data: Seq<u8>,
)
    requires
        crate::header::header_fault(channels, sample_rate, bits_per_sample, data_size) is None,
        crate::format::frame_size(channels, bits_per_sample) <= u16::MAX,
        data.len() <= data_size,
    ensures
        crate::parse::parsed(
            crate::header::wav_header(
                audio_format,
                channels,
                sample_rate,
                bits_per_sample,
                data_size,
            ) + data,
        ) == Ok::<PartView, ExtractError>(
            PartView {
                format: WavFormat {
                    audio_format,
                    channels,
                    sample_rate,
                    bits_per_sample,
                    block_align: crate::format::frame_size(channels, bits_per_sample) as u16,
                },
                data_regions: seq![
                    DataRegion {
                        offset: crate::header::HEADER_LEN as u64,
                        len: data.len() as u64,
                    },
                ],
            },
        ),
{
    let header = crate::header::wav_header(
        audio_format,
        channels,
        sample_rate,
        bits_per_sample,
        data_size,
    );
    let file = header + data;
    let payload = crate::header::format_payload(
        audio_format,
        channels,
        sample_rate,
        bits_per_sample,
    );
    let block_align = crate::format::frame_size(channels, bits_per_sample) as u16;
    assert(payload.len() == 16);
    assert(header.len() == 44);
    assert(file.subrange(0, 4) =~= crate::parse::riff_tag());
    assert(file.subrange(8, 12) =~= crate::parse::wave_tag());
    // The `fmt ` chunk.
    assert(file.subrange(12, 16) =~= crate::parse::fmt_tag());
    assert(file.subrange(16, 20) =~= crate::bytes::le32(16));
    crate::bytes::lemma_le32_round_trip(file, 16, 16);
    assert(file.subrange(20, 36) =~= payload);
    assert(payload.subrange(0, 2) =~= crate::bytes::le16(audio_format));
    crate::bytes::lemma_le16_round_trip(payload, 0, audio_format);
    assert(payload.subrange(2, 4) =~= crate::bytes::le16(channels));
    crate::bytes::lemma_le16_round_trip(payload, 2, channels);
    assert(payload.subrange(4, 8) =~= crate::bytes::le32(sample_rate));
    crate::bytes::lemma_le32_round_trip(payload, 4, sample_rate);
    assert(payload.subrange(12, 14) =~= crate::bytes::le16(block_align));
    crate::bytes::lemma_le16_round_trip(payload, 12, block_align);
    assert(payload.subrange(14, 16) =~= crate::bytes::le16(bits_per_sample));
    crate::bytes::lemma_le16_round_trip(payload, 14, bits_per_sample);
    // The `data` chunk.
    assert(file.subrange(36, 40) =~= crate::parse::data_tag());
    assert(crate::parse::data_tag()[0] != crate::parse::fmt_tag()[0]);
    assert(file.subrange(40, 44) =~= crate::bytes::le32(data_size));
    crate::bytes::lemma_le32_round_trip(file, 40, data_size);
    let format = crate::parse::declared_format(payload);
    let region = DataRegion { offset: 44, len: data.len() as u64 };
    let regions = Seq::<DataRegion>::empty().push(region);
    assert(regions =~= seq![region]);
    assert(crate::parse::chunks_from(file, 36, Some(format), Seq::empty()) == Ok::<
        PartView,
        ExtractError,
    >(PartView { format, data_regions: regions })) by {
        let next = crate::parse::next_chunk(44, data_size);
        assert(data.len() == data_size ==> crate::parse::chunks_from(
            file,
            next,
            Some(format),
            regions,
        ) == crate::parse::finished(Some(format), regions));
    }
}

/// Splitting loses nothing and changes nothing: byte `b` of the sample of a channel in a frame is
/// that byte of that sample in the channel's output.
pub proof fn law_split_is_lossless(
    data: Seq<u8>,
    frame_size: int,
    sample_size: int,
    channels: int,
    channel: int,
    frame: int,
    b: int,
)
    requires
        0 < frame_size,
        channels * sample_size <= frame_size,
        0 <= channel < channels,
        0 <= frame < data.len() as int / frame_size,
        0 <= b < sample_size,
    ensures
        0 <= frame * sample_size + b < crate::frames::channel_of(
            data,
            frame_size,
            sample_size,
            channel,
        ).len(),
        crate::frames::channel_of(data, frame_size, sample_size, channel)[frame * sample_size + b]
            == data[frame * frame_size + channel * sample_size + b],
{
    lemma_sample_at(
        data,
        frame_size,
        sample_size,
        channels,
        channel,
        data.len() as int / frame_size,
        frame,
        b,
    );
}

proof fn lemma_sample_at(
    data: Seq<u8>,
    frame_size: int,
    sample_size: int,
    channels: int,
    channel: int,
    frames: int,
    frame: int,
    b: int,
)
    requires
        0 < frame_size,
        channels * sample_size <= frame_size,
        0 <= channel < channels,
        0 <= frame < frames <= data.len() as int / frame_size,
        0 <= b < sample_size,
    ensures
        0 <= frame * sample_size + b < crate::frames::channel_samples(
            data,
            frame_size,
            sample_size,
            channel,
            frames,
        ).len(),
        crate::frames::channel_samples(data, frame_size, sample_size, channel, frames)[frame
            * sample_size + b] == data[frame * frame_size + channel * sample_size + b],
    decreases frames,
{
    crate::frames::lemma_channel_samples_len(
        data,
        frame_size,
        sample_size,
        channels,
        channel,
        frames - 1,
    );
    crate::frames::lemma_channel_samples_len(
        data,
        frame_size,
        sample_size,
        channels,
        channel,
        frames,
    );
    crate::frames::lemma_sample_in_data(
        data.len() as int,
        frame_size,
        sample_size,
        channels,
        channel,
        frames - 1,
    );
    assert(0 <= frame * sample_size && frame * sample_size + sample_size <= frames * sample_size)
        by (nonlinear_arith)
        requires
            0 <= frame < frames,
            0 <= sample_size,
    ;
    if frame < frames - 1 {
        lemma_sample_at(
            data,
            frame_size,
            sample_size,
            channels,
            channel,
            frames - 1,
            frame,
            b,
        );
    }
}

/// The byte count of all runs.
pub open spec fn runs_len(runs: Seq<Run>) -> int
    decreases runs.len(),
{
    if runs.len() == 0 {
        0
    } else {
        runs[0].len + runs_len(runs.drop_first())
    }
}

/// The bytes of all runs, one behind the other.
pub open spec fn runs_bytes(files: Seq<Seq<u8>>, runs: Seq<Run>) -> Seq<u8>
    decreases runs.len(),
{
    if runs.len() == 0 {
        Seq::empty()
    } else {
        files[runs[0].part].subrange(runs[0].offset, runs[0].offset + runs[0].len) + runs_bytes(
            files,
            runs.drop_first(),
        )
    }
}

/// A channel is given one sample for each whole frame, and nothing else.
pub proof fn law_split_gives_one_sample_per_frame(
    data: Seq<u8>,
    frame_size: int,
    sample_size: int,
    channels: int,
    channel: int,
    frames: int,
    rest: int,
)
    requires
        0 <= rest < frame_size,
        0 <= sample_size,
        channels * sample_size <= frame_size,
        0 <= channel < channels,
        0 <= frames,
        data.len() == frames * frame_size + rest,
    ensures
        crate::frames::channel_of(data, frame_size, sample_size, channel).len() == frames
            * sample_size,
{
    vstd::arithmetic::div_mod::lemma_fundamental_div_mod_converse(
        data.len() as int,
        frame_size,
        frames,
        rest,
    );
    crate::frames::lemma_channel_samples_len(
        data,
        frame_size,
        sample_size,
        channels,
        channel,
        frames,
    );
}

/// Whether every run holds whole frames.
pub open spec fn runs_aligned(runs: Seq<Run>, frame_size: int) -> bool {
    forall|i: int| #![trigger runs[i]] 0 <= i < runs.len() ==> runs[i].len % frame_size == 0
}

/// What is taken from the first run stands within it.
pub proof fn lemma_first_run(run: Run, frame_size: int, frames: int)
    requires
        0 < frame_size,
        0 < frames,
        0 <= run.len,
    ensures
        ({
            let count = crate::demux::lesser(run.len / frame_size, frames);
            &&& 0 <= count <= frames
            &&& 0 <= count * frame_size <= run.len
            &&& count * frame_size <= frames * frame_size
            &&& frames * frame_size == count * frame_size + (frames - count) * frame_size
            &&& count < frames && run.len % frame_size == 0 ==> count * frame_size == run.len
        }),
{
    let q = run.len / frame_size;
    let count = crate::demux::lesser(q, frames);
    vstd::arithmetic::div_mod::lemma_fundamental_div_mod(run.len, frame_size);
    vstd::arithmetic::div_mod::lemma_div_pos_is_pos(run.len, frame_size);
    assert(q * frame_size == frame_size * q) by (nonlinear_arith);
    assert(0 <= count * frame_size && count * frame_size <= q * frame_size && count * frame_size
        <= frames * frame_size) by (nonlinear_arith)
        requires
            0 <= count <= q,
            count <= frames,
            0 < frame_size,
    ;
    assert(frames * frame_size == count * frame_size + (frames - count) * frame_size)
        by (nonlinear_arith);
}

/// The runs behind the first stand within their files where all do.
pub proof fn lemma_rest_in_files(files: Seq<Seq<u8>>, runs: Seq<Run>)
    requires
        runs.len() > 0,
        crate::demux::runs_in_files(files, runs),
    ensures
        crate::demux::runs_in_files(files, runs.drop_first()),
{
    let rest = runs.drop_first();
    assert forall|i: int| #![trigger rest[i]] 0 <= i < rest.len() implies rest[i] == runs[i
        + 1] by {}
}

/// The segments into which a recording is split do not matter: where each holds whole frames, the
/// frames that are read are the first of all its samples, one segment behind the other.
pub proof fn law_segments_join(
    files: Seq<Seq<u8>>,
    runs: Seq<Run>,
    frame_size: int,
    frames: int,
)
    requires
        0 < frame_size,
        0 <= frames,
        crate::demux::runs_in_files(files, runs),
        runs_aligned(runs, frame_size),
    ensures
        runs_bytes(files, runs).len() == runs_len(runs),
        crate::demux::taken(files, runs, frame_size, frames) == (Taken {
            bytes: runs_bytes(files, runs).take(
                crate::demux::lesser(frames * frame_size, runs_len(runs)),
            ),
            fault: None,
        }),
    decreases runs.len(),
{
    assert(0 <= frames * frame_size) by (nonlinear_arith)
        requires
            0 <= frames,
            0 < frame_size,
    ;
    if runs.len() == 0 {
        assert(runs_bytes(files, runs).take(0) =~= Seq::empty());
    } else {
        let run = runs[0];
        let rest = runs.drop_first();
        lemma_rest_in_files(files, runs);
        assert forall|i: int| #![trigger rest[i]] 0 <= i < rest.len() implies rest[i].len
            % frame_size == 0 by {
            assert(rest[i] == runs[i + 1]);
        }
        let here = files[run.part].subrange(run.offset, run.offset + run.len);
        let later = runs_bytes(files, rest);
        if frames == 0 {
            law_segments_join(files, rest, frame_size, 0);
            assert(0 * frame_size == 0) by (nonlinear_arith);
            assert((here + later).take(0) =~= Seq::empty());
        } else {
            lemma_first_run(run, frame_size, frames);
            let count = crate::demux::lesser(run.len / frame_size, frames);
            law_segments_join(files, rest, frame_size, frames - count);
            let head = files[run.part].subrange(run.offset, run.offset + count * frame_size);
            let n = crate::demux::lesser((frames - count) * frame_size, runs_len(rest));
            if count == frames {
                assert(0 * frame_size == 0) by (nonlinear_arith);
                assert(head + later.take(0) =~= (here + later).take(frames * frame_size));
            } else {
                assert(head =~= here);
                assert(here + later.take(n) =~= (here + later).take(run.len + n));
            }
        }
    }
}

/// Fewer frames are the first of more: where at most `fewer` frames are wanted, what is read is
/// the start of what is read where `more` are.
pub proof fn law_fewer_frames_is_prefix(
    files: Seq<Seq<u8>>,
    runs: Seq<Run>,
    frame_size: int,
    fewer: int,
    more: int,
)
    requires
        0 < frame_size,
        0 <= fewer <= more,
        crate::demux::runs_in_files(files, runs),
    ensures
        crate::demux::taken(files, runs, frame_size, fewer).bytes.is_prefix_of(
            crate::demux::taken(files, runs, frame_size, more).bytes,
        ),
    decreases runs.len(),
{
    if fewer > 0 && runs.len() > 0 {
        let run = runs[0];
        let file = files[run.part];
        lemma_rest_in_files(files, runs);
        lemma_first_run(run, frame_size, fewer);
        lemma_first_run(run, frame_size, more);
        let a = crate::demux::lesser(run.len / frame_size, fewer);
        let b = crate::demux::lesser(run.len / frame_size, more);
        assert(a * frame_size <= b * frame_size) by (nonlinear_arith)
            requires
                a <= b,
                0 < frame_size,
        ;
        let head_a = file.subrange(run.offset, run.offset + a * frame_size);
        let head_b = file.subrange(run.offset, run.offset + b * frame_size);
        let rest_a = crate::demux::taken(files, runs.drop_first(), frame_size, fewer - a).bytes;
        let rest_b = crate::demux::taken(files, runs.drop_first(), frame_size, more - b).bytes;
        assert(head_a.is_prefix_of(head_b));
        if a == fewer {
            assert(rest_a =~= Seq::empty());
            assert((head_a + rest_a) =~= head_a);
            assert(head_a.is_prefix_of(head_b + rest_b));
        } else {
            assert(a == b);
            law_fewer_frames_is_prefix(
                files,
                runs.drop_first(),
                frame_size,
                fewer - a,
                more - b,
            );
            assert(rest_a.is_prefix_of(rest_b));
            assert((head_a + rest_a).is_prefix_of(head_b + rest_b));
        }
    }
}

/// What is read is whole frames.
proof fn lemma_taken_whole(
    files: Seq<Seq<u8>>,
    runs: Seq<Run>,
    frame_size: int,
    frames: int,
) -> (count: int)
    requires
        0 < frame_size,
        0 <= frames,
        crate::demux::runs_in_files(files, runs),
    ensures
        0 <= count <= frames,
        crate::demux::taken(files, runs, frame_size, frames).bytes.len() == count * frame_size,
    decreases runs.len(),
{
    if frames == 0 || runs.len() == 0 {
        assert(0 * frame_size == 0) by (nonlinear_arith);
        0
    } else if runs[0].len <= 0 {
        lemma_rest_in_files(files, runs);
        lemma_taken_whole(files, runs.drop_first(), frame_size, frames)
    } else {
        let count = crate::demux::lesser(runs[0].len / frame_size, frames);
        lemma_first_run(runs[0], frame_size, frames);
        lemma_rest_in_files(files, runs);
        if count < frames && runs[0].len % frame_size != 0 {
            count
        } else {
            let more = lemma_taken_whole(files, runs.drop_first(), frame_size, frames - count);
            assert((count + more) * frame_size == count * frame_size + more * frame_size)
                by (nonlinear_arith);
            count + more
        }
    }
}

/// A limit on the frames only shortens the outputs: where at most `fewer` frames are wanted, each
/// channel is given the first of the samples that it is given where `more` are.
pub proof fn law_fewer_frames_shorten_channels(
    files: Seq<Seq<u8>>,
    runs: Seq<Run>,
    frame_size: int,
    sample_size: int,
    channels: int,
    channel: int,
    fewer: int,
    more: int,
)
    requires
        0 < frame_size,
        0 <= sample_size,
        channels * sample_size <= frame_size,
        0 <= channel < channels,
        0 <= fewer <= more,
        crate::demux::runs_in_files(files, runs),
    ensures
        crate::frames::channel_of(
            crate::demux::taken(files, runs, frame_size, fewer).bytes,
            frame_size,
            sample_size,
            channel,
        ).is_prefix_of(
            crate::frames::channel_of(
                crate::demux::taken(files, runs, frame_size, more).bytes,
                frame_size,
                sample_size,
                channel,
            ),
        ),
{
    let a = crate::demux::taken(files, runs, frame_size, fewer).bytes;
    let b = crate::demux::taken(files, runs, frame_size, more).bytes;
    law_fewer_frames_is_prefix(files, runs, frame_size, fewer, more);
    let m = lemma_taken_whole(files, runs, frame_size, fewer);
    let n = lemma_taken_whole(files, runs, frame_size, more);
    vstd::arithmetic::div_mod::lemma_fundamental_div_mod_converse(
        a.len() as int,
        frame_size,
        m,
        0,
    );
    vstd::arithmetic::div_mod::lemma_fundamental_div_mod_converse(
        b.len() as int,
        frame_size,
        n,
        0,
    );
    let rest = b.skip(a.len() as int);
    assert(a + rest =~= b);
    assert(rest.len() == (n - m) * frame_size) by (nonlinear_arith)
        requires
            rest.len() == n * frame_size - m * frame_size,
    ;
    assert(m <= n) by (nonlinear_arith)
        requires
            m * frame_size <= n * frame_size,
            0 < frame_size,
    ;
    crate::frames::lemma_channel_samples_concat(
        a,
        rest,
        frame_size,
        sample_size,
        channels,
        channel,
        m,
        n - m,
    );
}

/// Without a fault, either all wanted frames are read or all bytes are.
proof fn lemma_taken_len(files: Seq<Seq<u8>>, runs: Seq<Run>, frame_size: int, frames: int)
    requires
        0 < frame_size,
        0 <= frames,
        crate::demux::runs_in_files(files, runs),
    ensures
        ({
            let all = crate::demux::taken(files, runs, frame_size, frames);
            all.fault is None ==> all.bytes.len() == frames * frame_size || (all.bytes.len()
                == runs_len(runs) && runs_len(runs) <= frames * frame_size)
        }),
    decreases runs.len(),
{
    if frames == 0 {
        assert(0 * frame_size == 0) by (nonlinear_arith);
    } else if runs.len() == 0 {
        assert(0 <= frames * frame_size) by (nonlinear_arith)
            requires
                0 <= frames,
                0 < frame_size,
        ;
    } else {
        let count = crate::demux::lesser(runs[0].len / frame_size, frames);
        lemma_first_run(runs[0], frame_size, frames);
        lemma_rest_in_files(files, runs);
        lemma_taken_len(files, runs.drop_first(), frame_size, frames - count);
        if count == frames {
            assert(0 * frame_size == 0) by (nonlinear_arith);
        }
    }
}

/// The runs hold the bytes that their lengths say.
pub proof fn lemma_runs_bytes_len(files: Seq<Seq<u8>>, runs: Seq<Run>)
    requires
        crate::demux::runs_in_files(files, runs),
    ensures
        runs_bytes(files, runs).len() == runs_len(runs),
    decreases runs.len(),
{
    if runs.len() > 0 {
        lemma_rest_in_files(files, runs);
        lemma_runs_bytes_len(files, runs.drop_first());
    }
}

/// What is read is the start of the bytes of all runs, one behind the other, also where the reading
/// ends with a fault.
#[verifier::spinoff_prover]
pub proof fn law_read_is_start_of_all(
    files: Seq<Seq<u8>>,
    runs: Seq<Run>,
    frame_size: int,
    frames: int,
)
    requires
        0 < frame_size,
        crate::demux::runs_in_files(files, runs),
    ensures
        crate::demux::taken(files, runs, frame_size, frames).bytes.is_prefix_of(
            runs_bytes(files, runs),
        ),
    decreases runs.len(),
{
    if frames > 0 && runs.len() > 0 {
        let run = runs[0];
        let rest = runs.drop_first();
        let file = files[run.part];
        let here = file.subrange(run.offset, run.offset + run.len);
        let later = runs_bytes(files, rest);
        lemma_rest_in_files(files, runs);
        if run.len <= 0 {
            law_read_is_start_of_all(files, rest, frame_size, frames);
            assert(here + later =~= later);
        } else {
            lemma_first_run(run, frame_size, frames);
            let count = crate::demux::lesser(run.len / frame_size, frames);
            let head = file.subrange(run.offset, run.offset + count * frame_size);
            let more = crate::demux::taken(files, rest, frame_size, frames - count).bytes;
            law_read_is_start_of_all(files, rest, frame_size, frames - count);
            if count == frames {
                assert(head + more =~= head);
                assert(head =~= (here + later).take(head.len() as int));
            } else if run.len % frame_size != 0 {
                assert(head =~= (here + later).take(head.len() as int));
            } else {
                assert(head =~= here);
                assert(more =~= later.take(more.len() as int));
                assert(here + more =~= (here + later).take((here + more).len() as int));
            }
        }
    }
}

/// With a fault, fewer frames are read than are wanted.
proof fn lemma_taken_short(files: Seq<Seq<u8>>, runs: Seq<Run>, frame_size: int, frames: int)
    requires
        0 < frame_size,
        0 <= frames,
        crate::demux::runs_in_files(files, runs),
        crate::demux::taken(files, runs, frame_size, frames).fault is Some,
    ensures
        crate::demux::taken(files, runs, frame_size, frames).bytes.len() < frames * frame_size,
    decreases runs.len(),
{
    let run = runs[0];
    lemma_rest_in_files(files, runs);
    if run.len <= 0 {
        lemma_taken_short(files, runs.drop_first(), frame_size, frames);
    } else {
        let count = crate::demux::lesser(run.len / frame_size, frames);
        lemma_first_run(run, frame_size, frames);
        if count < frames && run.len % frame_size != 0 {
            assert(count * frame_size < frames * frame_size) by (nonlinear_arith)
                requires
                    count < frames,
                    0 < frame_size,
            ;
        } else {
            lemma_taken_short(files, runs.drop_first(), frame_size, frames - count);
        }
    }
}

/// Where the reading ends with a fault, each channel is given whole samples, but fewer than are
/// wanted.
pub proof fn law_fault_leaves_channels_short(
    files: Seq<Seq<u8>>,
    runs: Seq<Run>,
    frame_size: int,
    sample_size: int,
    channels: int,
    channel: int,
    frames: int,
)
    requires
        0 < frame_size,
        0 < sample_size,
        channels * sample_size <= frame_size,
        0 <= channel < channels,
        0 <= frames,
        crate::demux::runs_in_files(files, runs),
        crate::demux::taken(files, runs, frame_size, frames).fault is Some,
    ensures
        ({
            let samples = crate::frames::channel_of(
                crate::demux::taken(files, runs, frame_size, frames).bytes,
                frame_size,
                sample_size,
                channel,
            );
            &&& samples.len() < frames * sample_size
            &&& samples.len() as int % sample_size == 0
        }),
{
    let bytes = crate::demux::taken(files, runs, frame_size, frames).bytes;
    let count = lemma_taken_whole(files, runs, frame_size, frames);
    lemma_taken_short(files, runs, frame_size, frames);
    assert(count < frames) by (nonlinear_arith)
        requires
            count * frame_size < frames * frame_size,
            0 < frame_size,
    ;
    vstd::arithmetic::div_mod::lemma_fundamental_div_mod_converse(
        bytes.len() as int,
        frame_size,
        count,
        0,
    );
    crate::frames::lemma_channel_samples_len(
        bytes,
        frame_size,
        sample_size,
        channels,
        channel,
        count,
    );
    assert(count * sample_size < frames * sample_size) by (nonlinear_arith)
        requires
            count < frames,
            0 < sample_size,
    ;
    vstd::arithmetic::div_mod::lemma_mod_multiples_basic(count, sample_size);
}

/// The byte count of the samples in all parts.
pub open spec fn parts_bytes(parts: Seq<PartView>) -> int
    decreases parts.len(),
{
    if parts.len() == 0 {
        0
    } else {
        parts_bytes(parts.drop_last()) + crate::survey::data_bytes(parts.last().data_regions)
    }
}

/// The runs of a recording hold the samples of its parts.
pub proof fn lemma_runs_len(parts: Seq<PartView>, part: int, region: int)
    requires
        0 <= part <= parts.len(),
        part < parts.len() ==> 0 <= region <= parts[part].data_regions.len(),
        part == parts.len() ==> region == 0,
    ensures
        runs_len(crate::demux::runs_from(parts, part, region, 0)) + (if part < parts.len() {
            crate::survey::data_bytes(parts[part].data_regions.take(region))
        } else {
            0
        }) + parts_bytes(parts.take(part)) == parts_bytes(parts),
    decreases parts.len() - part, parts[part].data_regions.len() - region,
{
    if part == parts.len() {
        assert(parts.take(part) =~= parts);
    } else {
        let regions = parts[part].data_regions;
        if region == regions.len() {
            lemma_runs_len(parts, part + 1, 0);
            assert(regions.take(region) =~= regions);
            assert(parts.take(part + 1).drop_last() =~= parts.take(part));
            if part + 1 < parts.len() {
                assert(parts[part + 1].data_regions.take(0) =~= Seq::empty());
            }
        } else {
            lemma_runs_len(parts, part, region + 1);
            assert(regions.take(region + 1).drop_last() =~= regions.take(region));
            let at = regions[region];
            let first = Run { part, offset: at.offset + 0, len: at.len - 0 };
            let later = crate::demux::runs_from(parts, part, region + 1, 0);
            assert((seq![first] + later).drop_first() =~= later);
        }
    }
}

/// The samples of a recording are its frames.
pub proof fn lemma_parts_bytes(parts: Seq<PartView>, frame_size: int)
    requires
        0 < frame_size,
        forall|i: int|
            #![trigger parts[i]]
            0 <= i < parts.len() ==> parts[i].format.block_align == frame_size
                && crate::survey::data_bytes(parts[i].data_regions) % frame_size == 0,
    ensures
        parts_bytes(parts) == crate::survey::frames_of(parts) * frame_size,
    decreases parts.len(),
{
    if parts.len() == 0 {
        assert(0 * frame_size == 0) by (nonlinear_arith);
    } else {
        let rest = parts.drop_last();
        let last = parts.last();
        assert forall|i: int| #![trigger rest[i]] 0 <= i < rest.len() implies rest[i]
            == parts[i] by {}
        lemma_parts_bytes(rest, frame_size);
        assert(parts[parts.len() - 1] == last);
        vstd::arithmetic::div_mod::lemma_fundamental_div_mod(
            crate::survey::data_bytes(last.data_regions),
            frame_size,
        );
        assert((crate::survey::frames_of(rest) + last.frames()) * frame_size
            == crate::survey::frames_of(rest) * frame_size + frame_size * last.frames())
            by (nonlinear_arith);
    }
}

/// An extraction that does not fail writes every frame that is wanted: each channel is given
/// `frames` samples, as many bytes as the header of its output file says.
pub proof fn law_every_frame_is_written(
    files: Seq<Seq<u8>>,
    parts: Seq<PartView>,
    sample_size: int,
    frames: int,
    channel: int,
)
    requires
        parts.len() > 0,
        crate::survey::one_recording(parts),
        crate::demux::regions_in_files(files, parts),
        0 <= sample_size,
        parts[0].format.channels * sample_size <= parts[0].format.block_align,
        0 <= channel < parts[0].format.channels,
        0 <= frames <= crate::survey::frames_of(parts),
    ensures
        ({
            let frame_size = parts[0].format.block_align as int;
            let all = crate::demux::taken(
                files,
                crate::demux::runs_of(parts),
                frame_size,
                frames,
            );
            all.fault is None ==> all.bytes.len() == frames * frame_size
                && crate::frames::channel_of(
                all.bytes,
                frame_size,
                sample_size,
                channel,
            ).len() == frames * sample_size
        }),
{
    let frame_size = parts[0].format.block_align as int;
    let runs = crate::demux::runs_of(parts);
    let all = crate::demux::taken(files, runs, frame_size, frames);
    crate::demux::lemma_runs_in_files(files, parts, 0, 0);
    lemma_runs_len(parts, 0, 0);
    assert(parts[0].data_regions.take(0) =~= Seq::empty());
    assert(parts.take(0) =~= Seq::empty());
    lemma_parts_bytes(parts, frame_size);
    assert(frames * frame_size <= crate::survey::frames_of(parts) * frame_size)
        by (nonlinear_arith)
        requires
            frames <= crate::survey::frames_of(parts),
            0 < frame_size,
    ;
    lemma_taken_len(files, runs, frame_size, frames);
    if all.fault is None {
        vstd::arithmetic::div_mod::lemma_fundamental_div_mod_converse(
            all.bytes.len() as int,
            frame_size,
            frames,
            0,
        );
        crate::frames::lemma_channel_samples_len(
            all.bytes,
            frame_size,
            sample_size,
            parts[0].format.channels as int,
            channel,
            frames,
        );
    }
}

/// Regions of whole frames give runs of whole frames.
proof fn lemma_runs_aligned(parts: Seq<PartView>, part: int, region: int, frame_size: int)
    requires
        forall|p: int, r: int|
            #![trigger parts[p].data_regions[r]]
            0 <= p < parts.len() && 0 <= r < parts[p].data_regions.len()
                ==> parts[p].data_regions[r].len as int % frame_size == 0,
    ensures
        runs_aligned(crate::demux::runs_from(parts, part, region, 0), frame_size),
    decreases parts.len() - part, parts[part].data_regions.len() - region,
{
    if part < 0 || part >= parts.len() || region < 0 {
    } else if region >= parts[part].data_regions.len() {
        lemma_runs_aligned(parts, part + 1, 0, frame_size);
    } else {
        lemma_runs_aligned(parts, part, region + 1, frame_size);
        let at = parts[part].data_regions[region];
        let first = Run { part, offset: at.offset + 0, len: at.len - 0 };
        let later = crate::demux::runs_from(parts, part, region + 1, 0);
        let runs = seq![first] + later;
        assert forall|i: int| #![trigger runs[i]] 0 <= i < runs.len() implies runs[i].len
            % frame_size == 0 by {
            if i > 0 {
                assert(runs[i] == later[i - 1]);
            }
        }
    }
}

/// A recording whose parts have one data chunk each is extracted without a fault, however many
/// frames are wanted: the check that each part holds whole frames is enough.
pub proof fn law_single_chunks_are_extracted(
    files: Seq<Seq<u8>>,
    parts: Seq<PartView>,
    frames: int,
)
    requires
        parts.len() > 0,
        crate::survey::one_recording(parts),
        crate::demux::regions_in_files(files, parts),
        forall|i: int|
            #![trigger parts[i]]
            0 <= i < parts.len() ==> parts[i].data_regions.len() == 1,
        0 <= frames,
    ensures
        crate::demux::taken(
            files,
            crate::demux::runs_of(parts),
            parts[0].format.block_align as int,
            frames,
        ).fault is None,
{
    let frame_size = parts[0].format.block_align as int;
    assert forall|p: int, r: int|
        #![trigger parts[p].data_regions[r]]
        0 <= p < parts.len() && 0 <= r < parts[p].data_regions.len() implies parts[p]
        .data_regions[r].len as int % frame_size == 0 by {
        let regions = parts[p].data_regions;
        assert(regions.drop_last() =~= Seq::empty());
        reveal_with_fuel(crate::survey::data_bytes, 2);
        assert(crate::survey::data_bytes(regions) == regions[0].len);
    }
    lemma_runs_aligned(parts, 0, 0, frame_size);
    crate::demux::lemma_runs_in_files(files, parts, 0, 0);
    law_segments_join(files, crate::demux::runs_of(parts), frame_size, frames);
}

/// No two channels are written to one file: output files with different numbers have different
/// names.
pub proof fn law_output_names_distinct(prefix: Seq<char>, a: nat, b: nat)
    requires
        crate::output::output_name(prefix, a as int) == crate::output::output_name(
            prefix,
            b as int,
        ),
    ensures
        a == b,
{
    let before = prefix + "-"@;
    let x = crate::text::decimal(a);
    let y = crate::text::decimal(b);
    let name = crate::output::output_name(prefix, a as int);
    let end = name.len() - ".wav"@.len();
    assert(x =~= name.subrange(before.len() as int, end));
    assert(y =~= name.subrange(before.len() as int, end));
    crate::text::law_decimal_distinct(a, b);
}

} // verus!

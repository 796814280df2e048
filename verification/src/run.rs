//! A whole extraction, from the contents of the input files to those of the output files.
use vstd::prelude::*;

use crate::demux::demux_parts;
use crate::error::ExtractError;
use crate::format::{check_format, WavFormat};
use crate::frames::append_bytes;
use crate::output::create_output_writers;
use crate::parse::{parse_input_part, DataRegion, PartView};
use crate::survey::Survey;

verus! {

/// Why an extraction failed, and, where an input file does not belong to the recording, the index
/// of that file.
#[derive(Debug, Clone, Copy, PartialEq, Eq, Structural)]
pub struct Failure {
    pub file: Option<usize>,
    pub error: ExtractError,
}

/// An output file.
#[derive(Debug)]
pub struct OutputFile {
    pub name: String,
    pub bytes: Vec<u8>,
}

/// An [`OutputFile`] as a mathematical value.
#[verifier::ext_equal]
pub struct OutputView {
    pub name: Seq<char>,
    pub bytes: Seq<u8>,
}

impl View for OutputFile {
    type V = OutputView;

    open spec fn view(&self) -> OutputView {
        OutputView { name: self.name@, bytes: self.bytes@ }
    }
}

/// An extraction that failed, and the output files that it leaves.
#[derive(Debug)]
pub struct Stopped {
    pub failure: Failure,
    pub outputs: Vec<OutputFile>,
}

/// What an extraction leaves: the output files, and why it failed, if it did.
#[verifier::ext_equal]
pub struct Extraction {
    pub outputs: Seq<OutputView>,
    pub failure: Option<Failure>,
}

/// The parts of the recording that `files` make up, or why the first file that does not belong to
/// it does not.
pub open spec fn surveyed(files: Seq<Seq<u8>>) -> Result<Seq<PartView>, Failure>
    decreases files.len(),
{
    if files.len() == 0 {
        Ok(Seq::empty())
    } else {
        let file = Some((files.len() - 1) as usize);
        match surveyed(files.drop_last()) {
            Ok(parts) => match crate::parse::parsed(files.last()) {
                Ok(part) => match part.fault(
                    crate::survey::format_of(parts),
                    crate::survey::frames_of(parts),
                ) {
                    Some(error) => Err(Failure { file, error }),
                    None => Ok(parts.push(part)),
                },
                Err(error) => Err(Failure { file, error }),
            },
            Err(failure) => Err(failure),
        }
    }
}

/// Whether a file is met that has samples in frames of no bytes.
pub open spec fn has_empty_frames(files: Seq<Seq<u8>>) -> bool
    decreases files.len(),
{
    files.len() > 0 && {
        ||| has_empty_frames(files.drop_last())
        ||| surveyed(files.drop_last()) is Ok && {
            &&& crate::parse::parsed(files.last()) matches Ok(part)
            &&& part.data_regions.len() > 0
            &&& part.format.block_align == 0
        }
    }
}

/// Whether the numbers of the outputs fit a machine word, where there are outputs to number.
pub open spec fn within_limits(
    files: Seq<Seq<u8>>,
    channel_start: usize,
    max_frames: Option<u64>,
) -> bool {
    surveyed(files) matches Ok(parts) ==> parts.len() > 0 ==> {
        let plan = crate::survey::planned(parts, max_frames);
        let format = plan.format;
        let sample_size = crate::format::sample_bytes(format.bits_per_sample) as usize;
        format.fault() is None && crate::output::size_fault(
            plan.frames_to_write,
            sample_size,
        ) is None && crate::output::mono_header_fault(
            format,
            plan.frames_to_write,
            sample_size,
        ) is None ==> channel_start + format.channels <= usize::MAX + 1
    }
}

/// Why the recording in `parts` cannot be extracted, if it cannot.
pub open spec fn output_fault(
    files: Seq<Seq<u8>>,
    parts: Seq<PartView>,
    max_frames: Option<u64>,
) -> Option<ExtractError> {
    let plan = crate::survey::planned(parts, max_frames);
    let format = plan.format;
    let sample_size = crate::format::sample_bytes(format.bits_per_sample) as usize;
    if format.fault() is Some {
        format.fault()
    } else if crate::output::size_fault(plan.frames_to_write, sample_size) is Some {
        crate::output::size_fault(plan.frames_to_write, sample_size)
    } else if crate::output::mono_header_fault(format, plan.frames_to_write, sample_size) is Some {
        crate::output::mono_header_fault(format, plan.frames_to_write, sample_size)
    } else {
        crate::demux::taken(
            files,
            crate::demux::runs_of(parts),
            format.block_align as int,
            plan.frames_to_write as int,
        ).fault
    }
}

/// The output files of the recording in `parts`, as far as they can be written.
///
/// Where the format or the size of the outputs is at fault, none is created. Where their header
/// is, the first is, and stays empty. Otherwise each holds the header, followed by the samples of
/// its channel in the wanted frames, or in those before a fault.
pub open spec fn output_files(
    files: Seq<Seq<u8>>,
    parts: Seq<PartView>,
    prefix: Seq<char>,
    channel_start: int,
    max_frames: Option<u64>,
) -> Seq<OutputView> {
    let plan = crate::survey::planned(parts, max_frames);
    let format = plan.format;
    let sample_size = crate::format::sample_bytes(format.bits_per_sample);
    let all = crate::demux::taken(
        files,
        crate::demux::runs_of(parts),
        format.block_align as int,
        plan.frames_to_write as int,
    );
    if format.fault() is Some || crate::output::size_fault(
        plan.frames_to_write,
        sample_size as usize,
    ) is Some {
        Seq::empty()
    } else if crate::output::mono_header_fault(
        format,
        plan.frames_to_write,
        sample_size as usize,
    ) is Some {
        seq![
            OutputView {
                name: crate::output::output_name(prefix, channel_start),
                bytes: Seq::empty(),
            },
        ]
    } else {
        Seq::new(
            format.channels as nat,
            |c: int|
                OutputView {
                    name: crate::output::output_name(prefix, channel_start + c),
                    bytes: crate::header::wav_header(
                        format.audio_format,
                        1,
                        format.sample_rate,
                        format.bits_per_sample,
                        (plan.frames_to_write * sample_size) as u32,
                    ) + crate::frames::channel_of(
                        all.bytes,
                        format.block_align as int,
                        sample_size,
                        c,
                    ),
                },
        )
    }
}

/// What the extraction of the recording that `files` make up leaves.
pub open spec fn extraction(
    files: Seq<Seq<u8>>,
    prefix: Seq<char>,
    channel_start: int,
    max_frames: Option<u64>,
) -> Extraction {
    match surveyed(files) {
        Ok(parts) => if parts.len() == 0 {
            Extraction {
                outputs: Seq::empty(),
                failure: Some(Failure { file: None, error: ExtractError::NoWavFiles }),
            }
        } else {
            Extraction {
                outputs: output_files(files, parts, prefix, channel_start, max_frames),
                failure: match output_fault(files, parts, max_frames) {
                    Some(error) => Some(Failure { file: None, error }),
                    None => None,
                },
            }
        },
        Err(failure) => Extraction { outputs: Seq::empty(), failure: Some(failure) },
    }
}

/// Output files as mathematical values.
pub open spec fn output_views(outputs: Seq<OutputFile>) -> Seq<OutputView> {
    outputs.map_values(|output: OutputFile| output@)
}

/// Files behind one that does not belong to the recording do not matter.
pub proof fn lemma_surveyed_fails(files: Seq<Seq<u8>>, n: int)
    requires
        0 <= n <= files.len(),
        surveyed(files.take(n)) is Err,
    ensures
        surveyed(files) == surveyed(files.take(n)),
    decreases files.len(),
{
    if n == files.len() {
        assert(files.take(n) =~= files);
    } else {
        assert(files.drop_last().take(n) =~= files.take(n));
        lemma_surveyed_fails(files.drop_last(), n);
    }
}

/// Where no file has empty frames, none of the first ones has.
proof fn lemma_empty_frames_prefix(files: Seq<Seq<u8>>, n: int)
    requires
        0 <= n <= files.len(),
        !has_empty_frames(files),
    ensures
        !has_empty_frames(files.take(n)),
    decreases files.len(),
{
    if n == files.len() {
        assert(files.take(n) =~= files);
    } else {
        assert(files.drop_last().take(n) =~= files.take(n));
        lemma_empty_frames_prefix(files.drop_last(), n);
    }
}

/// The parts of a recording are what its files say of themselves.
pub proof fn lemma_surveyed_parts(files: Seq<Seq<u8>>)
    requires
        surveyed(files) is Ok,
    ensures
        ({
            let parts = surveyed(files)->Ok_0;
            &&& parts.len() == files.len()
            &&& forall|i: int|
                #![trigger parts[i]]
                0 <= i < parts.len() ==> crate::parse::parsed(files[i]) == Ok::<
                    PartView,
                    ExtractError,
                >(parts[i])
        }),
    decreases files.len(),
{
    if files.len() > 0 {
        lemma_surveyed_parts(files.drop_last());
    }
}

/// The data regions of the parts of a recording stand within its files.
pub proof fn lemma_surveyed_regions(files: Seq<Seq<u8>>)
    requires
        surveyed(files) is Ok,
        forall|i: int| #![trigger files[i]] 0 <= i < files.len() ==> files[i].len() <= u64::MAX,
    ensures
        crate::demux::regions_in_files(files, surveyed(files)->Ok_0),
{
    let parts = surveyed(files)->Ok_0;
    lemma_surveyed_parts(files);
    assert forall|p: int, r: int|
        #![trigger parts[p].data_regions[r]]
        0 <= p < parts.len() && 0 <= r < parts[p].data_regions.len() implies parts[p]
        .data_regions[r].offset + parts[p].data_regions[r].len <= files[p].len() by {
        crate::laws::law_regions_in_file(files[p]);
    }
}

/// Surveys the files of a recording.
pub fn survey_files(files: &Vec<Vec<u8>>) -> (result: Result<Survey, Failure>)
    requires
        !has_empty_frames(crate::demux::file_views(files@)),
    ensures
        match result {
            Ok(survey) => survey.well_formed() && surveyed(crate::demux::file_views(files@))
                == Ok::<Seq<PartView>, Failure>(survey.views()),
            Err(failure) => surveyed(crate::demux::file_views(files@)) == Err::<
                Seq<PartView>,
                Failure,
            >(failure),
        },
{
    let ghost contents = crate::demux::file_views(files@);
    let mut survey = Survey::new();
    for i in 0..files.len()
        invariant
            contents == crate::demux::file_views(files@),
            !has_empty_frames(contents),
            survey.well_formed(),
            surveyed(contents.take(i as int)) == Ok::<Seq<PartView>, Failure>(survey.views()),
    {
        let file: &Vec<u8> = &files[i];
        let file_len: usize = file.len();
        proof {
            assert(contents.take(i + 1).drop_last() =~= contents.take(i as int));
            assert(contents.take(i + 1).last() == file@);
            lemma_empty_frames_prefix(contents, i + 1);
            crate::laws::law_data_fits_file(file@);
            if surveyed(contents.take(i + 1)) is Err {
                lemma_surveyed_fails(contents, i + 1);
            }
        }
        let part = match parse_input_part(file.as_slice()) {
            Ok(part) => part,
            Err(error) => return Err(Failure { file: Some(i), error }),
        };
        match survey.add_part(part) {
            Ok(()) => {},
            Err(error) => return Err(Failure { file: Some(i), error }),
        }
    }
    assert(contents.take(contents.len() as int) =~= contents);
    Ok(survey)
}

/// Puts the names of output files and their contents together.
fn name_outputs(names: &Vec<String>, contents: Vec<Vec<u8>>) -> (outputs: Vec<OutputFile>)
    requires
        names@.len() == contents@.len(),
    ensures
        outputs@.len() == contents@.len(),
        forall|c: int|
            #![trigger outputs@[c]]
            0 <= c < outputs@.len() ==> outputs@[c]@ == (OutputView {
                name: names@[c]@,
                bytes: contents@[c]@,
            }),
{
    let ghost given = contents@;
    let mut outputs: Vec<OutputFile> = Vec::new();
    for bytes in iter: contents
        invariant
            iter.seq() == given,
            names@.len() == given.len(),
            outputs@.len() == iter.index(),
            forall|c: int|
                #![trigger outputs@[c]]
                0 <= c < outputs@.len() ==> outputs@[c]@ == (OutputView {
                    name: names@[c]@,
                    bytes: given[c]@,
                }),
    {
        assert(bytes == given[iter.index()]);
        outputs.push(OutputFile { name: names[outputs.len()].clone(), bytes });
    }
    outputs
}

/// A failure before any output file was created.
fn stopped_early(failure: Failure) -> (stopped: Stopped)
    ensures
        stopped.failure == failure,
        output_views(stopped.outputs@) == Seq::<OutputView>::empty(),
{
    let stopped = Stopped { failure, outputs: Vec::new() };
    assert(output_views(stopped.outputs@) =~= Seq::empty());
    stopped
}

/// Extracts at most `max_frames` frames of the recording that `files` make up, in this order, to
/// one output file for each channel, numbered from `channel_start` on. A failure comes with the
/// output files that were created before it, as far as they were written.
pub fn run(
    files: &Vec<Vec<u8>>,
    prefix: &str,
    channel_start: usize,
    max_frames: Option<u64>,
) -> (result: Result<Vec<OutputFile>, Stopped>)
    requires
        !has_empty_frames(crate::demux::file_views(files@)),
        within_limits(crate::demux::file_views(files@), channel_start, max_frames),
    ensures
        extraction(
            crate::demux::file_views(files@),
            prefix@,
            channel_start as int,
            max_frames,
        ) == (match result {
            Ok(outputs) => Extraction { outputs: output_views(outputs@), failure: None },
            Err(stopped) => Extraction {
                outputs: output_views(stopped.outputs@),
                failure: Some(stopped.failure),
            },
        }),
{
    let ghost contents = crate::demux::file_views(files@);
    let survey = match survey_files(files) {
        Ok(survey) => survey,
        Err(failure) => return Err(stopped_early(failure)),
    };
    let plan = match survey.plan(max_frames) {
        Ok(plan) => plan,
        Err(error) => return Err(stopped_early(Failure { file: None, error })),
    };
    let bytes_per_sample: usize = match check_format(&plan.format) {
        Ok(bytes) => bytes,
        Err(error) => return Err(stopped_early(Failure { file: None, error })),
    };
    let channel_count: usize = plan.format.channels as usize;
    let planned = create_output_writers(
        prefix,
        channel_start,
        channel_count,
        &plan.format,
        plan.frames_to_write,
        bytes_per_sample,
    );
    let output_plan = match planned {
        Ok(output_plan) => output_plan,
        Err(error) => return Err(stopped_early(Failure { file: None, error })),
    };
    let names: Vec<String> = output_plan.names;
    let ghost expected = output_files(
        contents,
        survey.views(),
        prefix@,
        channel_start as int,
        max_frames,
    );
    let mut writers: Vec<Vec<u8>> = Vec::new();
    let header: Vec<u8> = match output_plan.header {
        Ok(header) => header,
        Err(error) => {
            writers.push(Vec::new());
            assert(writers@[0]@ =~= Seq::empty());
            let outputs = name_outputs(&names, writers);
            assert(output_views(outputs@) =~= expected);
            return Err(Stopped { failure: Failure { file: None, error }, outputs });
        },
    };
    for i in 0..channel_count
        invariant
            writers@.len() == i,
            forall|c: int| #![trigger writers@[c]] 0 <= c < i ==> writers@[c]@ == header@,
    {
        let mut writer: Vec<u8> = Vec::new();
        append_bytes(&mut writer, header.as_slice());
        assert(writer@ =~= header@);
        writers.push(writer);
    }
    proof {
        assert forall|i: int| #![trigger contents[i]] 0 <= i < contents.len() implies contents[i]
            .len() <= u64::MAX by {
            assert(files@[i].len() <= usize::MAX);
        }
        lemma_surveyed_regions(contents);
    }
    let demuxed = demux_parts(
        files,
        &survey.parts,
        &mut writers,
        &plan.format,
        bytes_per_sample,
        plan.frames_to_write,
    );
    let outputs = name_outputs(&names, writers);
    assert(output_views(outputs@) =~= expected);
    match demuxed {
        Ok(()) => Ok(outputs),
        Err(error) => Err(Stopped { failure: Failure { file: None, error }, outputs }),
    }
}

/// The parts of a recording share one format and have samples, in whole frames, and their frames
/// can be counted.
pub proof fn lemma_surveyed_recording(files: Seq<Seq<u8>>)
    requires
        surveyed(files) is Ok,
    ensures
        ({
            let parts = surveyed(files)->Ok_0;
            &&& forall|i: int|
                #![trigger parts[i]]
                0 <= i < parts.len() ==> {
                    &&& parts[i].format == parts[0].format
                    &&& parts[i].data_regions.len() > 0
                    &&& crate::survey::data_bytes(parts[i].data_regions) % (
                    parts[i].format.block_align as int) == 0
                }
            &&& crate::survey::frames_of(parts) <= u64::MAX
        }),
    decreases files.len(),
{
    if files.len() > 0 {
        lemma_surveyed_recording(files.drop_last());
        let before = surveyed(files.drop_last())->Ok_0;
        let parts = surveyed(files)->Ok_0;
        assert(parts.drop_last() =~= before);
    }
}

/// There are not fewer frames than none.
pub proof fn lemma_frames_of_positive(parts: Seq<PartView>)
    requires
        crate::survey::one_recording(parts),
    ensures
        0 <= crate::survey::frames_of(parts),
    decreases parts.len(),
{
    if parts.len() > 0 {
        let rest = parts.drop_last();
        let last = parts.last();
        assert forall|i: int| #![trigger rest[i]] 0 <= i < rest.len() implies rest[i] == parts[i]
            && rest[0] == parts[0] by {}
        lemma_frames_of_positive(rest);
        assert(parts[parts.len() - 1] == last);
        crate::survey::lemma_data_bytes_prefix(last.data_regions, 0);
        vstd::arithmetic::div_mod::lemma_div_pos_is_pos(
            crate::survey::data_bytes(last.data_regions),
            last.format.block_align as int,
        );
    }
}

/// The frames of a recording that is extracted are the start of its samples, as many as are
/// wanted, and its samples are its frames.
#[verifier::spinoff_prover]
pub proof fn lemma_extracted_frames(
    files: Seq<Seq<u8>>,
    prefix: Seq<char>,
    channel_start: int,
    max_frames: Option<u64>,
)
    requires
        forall|i: int| #![trigger files[i]] 0 <= i < files.len() ==> files[i].len() <= u64::MAX,
        extraction(files, prefix, channel_start, max_frames).failure is None,
    ensures
        ({
            let parts = surveyed(files)->Ok_0;
            let plan = crate::survey::planned(parts, max_frames);
            let frame_size = plan.format.block_align as int;
            let runs = crate::demux::runs_of(parts);
            let bytes = crate::demux::taken(
                files,
                runs,
                frame_size,
                plan.frames_to_write as int,
            ).bytes;
            &&& 0 < frame_size
            &&& crate::survey::one_recording(parts)
            &&& crate::demux::regions_in_files(files, parts)
            &&& 0 <= crate::survey::frames_of(parts) <= u64::MAX
            &&& crate::laws::runs_bytes(files, runs).len() == crate::survey::frames_of(parts)
                * frame_size
            &&& bytes.is_prefix_of(crate::laws::runs_bytes(files, runs))
            &&& bytes.len() == plan.frames_to_write * frame_size
        }),
{
    let parts = surveyed(files)->Ok_0;
    let plan = crate::survey::planned(parts, max_frames);
    let format = plan.format;
    let sample_size = crate::format::sample_bytes(format.bits_per_sample);
    let frame_size = format.block_align as int;
    let runs = crate::demux::runs_of(parts);
    let frames = plan.frames_to_write as int;
    assert(0 < format.channels * sample_size) by (nonlinear_arith)
        requires
            0 < format.channels,
            0 < sample_size,
    ;
    lemma_surveyed_recording(files);
    lemma_surveyed_regions(files);
    assert(crate::survey::one_recording(parts));
    lemma_frames_of_positive(parts);
    crate::demux::lemma_runs_in_files(files, parts, 0, 0);
    crate::laws::law_read_is_start_of_all(files, runs, frame_size, frames);
    crate::laws::lemma_runs_bytes_len(files, runs);
    crate::laws::lemma_runs_len(parts, 0, 0);
    assert(parts[0].data_regions.take(0) =~= Seq::empty());
    assert(parts.take(0) =~= Seq::empty());
    crate::laws::lemma_parts_bytes(parts, frame_size);
    crate::laws::law_every_frame_is_written(files, parts, sample_size, frames, 0);
}

/// The segments into which a recording is split do not matter: two lists of files that are both
/// extracted, with one format and the same samples, one data chunk behind the other, give the same
/// output files.
#[verifier::spinoff_prover]
pub proof fn law_segmentation_is_irrelevant(
    files_a: Seq<Seq<u8>>,
    files_b: Seq<Seq<u8>>,
    prefix: Seq<char>,
    channel_start: int,
    max_frames: Option<u64>,
)
    requires
        forall|i: int|
            #![trigger files_a[i]]
            0 <= i < files_a.len() ==> files_a[i].len() <= u64::MAX,
        forall|i: int|
            #![trigger files_b[i]]
            0 <= i < files_b.len() ==> files_b[i].len() <= u64::MAX,
        extraction(files_a, prefix, channel_start, max_frames).failure is None,
        extraction(files_b, prefix, channel_start, max_frames).failure is None,
        surveyed(files_a)->Ok_0[0].format == surveyed(files_b)->Ok_0[0].format,
        crate::laws::runs_bytes(files_a, crate::demux::runs_of(surveyed(files_a)->Ok_0))
            == crate::laws::runs_bytes(files_b, crate::demux::runs_of(surveyed(files_b)->Ok_0)),
    ensures
        extraction(files_a, prefix, channel_start, max_frames) == extraction(
            files_b,
            prefix,
            channel_start,
            max_frames,
        ),
{
    let parts_a = surveyed(files_a)->Ok_0;
    let parts_b = surveyed(files_b)->Ok_0;
    let frame_size = parts_a[0].format.block_align as int;
    lemma_extracted_frames(files_a, prefix, channel_start, max_frames);
    lemma_extracted_frames(files_b, prefix, channel_start, max_frames);
    let x = crate::survey::frames_of(parts_a);
    let y = crate::survey::frames_of(parts_b);
    assert(x == y) by (nonlinear_arith)
        requires
            x * frame_size == y * frame_size,
            0 < frame_size,
    ;
    let plan = crate::survey::planned(parts_a, max_frames);
    assert(plan == crate::survey::planned(parts_b, max_frames));
    let a = crate::demux::taken(
        files_a,
        crate::demux::runs_of(parts_a),
        frame_size,
        plan.frames_to_write as int,
    );
    let b = crate::demux::taken(
        files_b,
        crate::demux::runs_of(parts_b),
        frame_size,
        plan.frames_to_write as int,
    );
    assert(a.bytes =~= b.bytes);
    assert(extraction(files_a, prefix, channel_start, max_frames).outputs =~= extraction(
        files_b,
        prefix,
        channel_start,
        max_frames,
    ).outputs);
}

/// Every output of an extraction is a mono WAV file, with the encoding, sample rate and sample
/// size of the recording, that holds exactly the wanted frames of its channel: read back, it
/// declares that format, and its one data region, behind the header, is one sample for each
/// wanted frame, the one of that channel.
#[verifier::spinoff_prover]
pub proof fn law_outputs_are_the_channels(
    files: Seq<Seq<u8>>,
    prefix: Seq<char>,
    channel_start: int,
    max_frames: Option<u64>,
    c: int,
)
    requires
        forall|i: int| #![trigger files[i]] 0 <= i < files.len() ==> files[i].len() <= u64::MAX,
        extraction(files, prefix, channel_start, max_frames).failure is None,
        0 <= c < extraction(files, prefix, channel_start, max_frames).outputs.len(),
    ensures
        ({
            let parts = surveyed(files)->Ok_0;
            let plan = crate::survey::planned(parts, max_frames);
            let format = plan.format;
            let sample_size = crate::format::sample_bytes(format.bits_per_sample);
            let bytes = extraction(files, prefix, channel_start, max_frames).outputs[c].bytes;
            let all = crate::demux::taken(
                files,
                crate::demux::runs_of(parts),
                format.block_align as int,
                plan.frames_to_write as int,
            );
            &&& crate::parse::parsed(bytes) == Ok::<PartView, ExtractError>(
                PartView {
                    format: WavFormat {
                        audio_format: format.audio_format,
                        channels: 1,
                        sample_rate: format.sample_rate,
                        bits_per_sample: format.bits_per_sample,
                        block_align: sample_size as u16,
                    },
                    data_regions: seq![
                        DataRegion {
                            offset: crate::header::HEADER_LEN as u64,
                            len: (plan.frames_to_write * sample_size) as u64,
                        },
                    ],
                },
            )
            &&& bytes.len() == crate::header::HEADER_LEN + plan.frames_to_write * sample_size
            &&& all.bytes.len() == plan.frames_to_write * format.block_align
            &&& bytes.skip(crate::header::HEADER_LEN as int) == crate::frames::channel_of(
                all.bytes,
                format.block_align as int,
                sample_size,
                c,
            )
        }),
{
    let parts = surveyed(files)->Ok_0;
    let plan = crate::survey::planned(parts, max_frames);
    let format = plan.format;
    let sample_size = crate::format::sample_bytes(format.bits_per_sample);
    let frame_size = format.block_align as int;
    let frames = plan.frames_to_write as int;
    let data_size = (frames * sample_size) as u32;
    lemma_extracted_frames(files, prefix, channel_start, max_frames);
    crate::laws::law_every_frame_is_written(files, parts, sample_size, frames, c);
    let all = crate::demux::taken(files, crate::demux::runs_of(parts), frame_size, frames);
    let data = crate::frames::channel_of(all.bytes, frame_size, sample_size, c);
    let header = crate::header::wav_header(
        format.audio_format,
        1,
        format.sample_rate,
        format.bits_per_sample,
        data_size,
    );
    assert(1 * sample_size == sample_size);
    crate::laws::law_header_reads_back(
        format.audio_format,
        1,
        format.sample_rate,
        format.bits_per_sample,
        data_size,
        data,
    );
    assert(header.len() == 44);
    assert((header + data).skip(44) =~= data);
}

/// An extraction that fails leaves no output file that looks complete: each is empty, where the
/// header cannot be written, or it starts with the header that a complete one would have and holds
/// fewer samples than that declares. The frames in it are the first of the recording.
#[verifier::spinoff_prover]
pub proof fn law_failed_outputs_fall_short(
    files: Seq<Seq<u8>>,
    prefix: Seq<char>,
    channel_start: int,
    max_frames: Option<u64>,
    c: int,
)
    requires
        forall|i: int| #![trigger files[i]] 0 <= i < files.len() ==> files[i].len() <= u64::MAX,
        extraction(files, prefix, channel_start, max_frames).failure is Some,
        0 <= c < extraction(files, prefix, channel_start, max_frames).outputs.len(),
    ensures
        ({
            let parts = surveyed(files)->Ok_0;
            let plan = crate::survey::planned(parts, max_frames);
            let format = plan.format;
            let sample_size = crate::format::sample_bytes(format.bits_per_sample);
            let output = extraction(files, prefix, channel_start, max_frames).outputs[c];
            let runs = crate::demux::runs_of(parts);
            let bytes = crate::demux::taken(
                files,
                runs,
                format.block_align as int,
                plan.frames_to_write as int,
            ).bytes;
            let samples = crate::frames::channel_of(
                bytes,
                format.block_align as int,
                sample_size,
                c,
            );
            &&& surveyed(files) is Ok
            &&& output.name == crate::output::output_name(prefix, channel_start + c)
            &&& crate::output::mono_header_fault(
                format,
                plan.frames_to_write,
                sample_size as usize,
            ) is Some ==> output.bytes.len() == 0
            &&& crate::output::mono_header_fault(
                format,
                plan.frames_to_write,
                sample_size as usize,
            ) is None ==> {
                &&& output.bytes == crate::header::wav_header(
                    format.audio_format,
                    1,
                    format.sample_rate,
                    format.bits_per_sample,
                    (plan.frames_to_write * sample_size) as u32,
                ) + samples
                &&& samples.len() < plan.frames_to_write * sample_size
                &&& samples.len() as int % sample_size == 0
                &&& bytes.is_prefix_of(crate::laws::runs_bytes(files, runs))
            }
        }),
{
    let parts = surveyed(files)->Ok_0;
    let plan = crate::survey::planned(parts, max_frames);
    let format = plan.format;
    let sample_size = crate::format::sample_bytes(format.bits_per_sample);
    let frame_size = format.block_align as int;
    let runs = crate::demux::runs_of(parts);
    let frames = plan.frames_to_write as int;
    if crate::output::mono_header_fault(
        format,
        plan.frames_to_write,
        sample_size as usize,
    ) is None {
        assert(0 < format.channels * sample_size) by (nonlinear_arith)
            requires
                0 < format.channels,
                0 < sample_size,
        ;
        lemma_surveyed_regions(files);
        crate::demux::lemma_runs_in_files(files, parts, 0, 0);
        crate::laws::law_read_is_start_of_all(files, runs, frame_size, frames);
        crate::laws::law_fault_leaves_channels_short(
            files,
            runs,
            frame_size,
            sample_size,
            format.channels as int,
            c,
            frames,
        );
    }
}

/// Output files are seen as they stand, in their order, each under its name.
pub proof fn law_outputs_as_they_stand(outputs: Seq<OutputFile>, i: int)
    requires
        0 <= i < outputs.len(),
    ensures
        output_views(outputs).len() == outputs.len(),
        output_views(outputs)[i].name == outputs[i].name@,
        output_views(outputs)[i].bytes == outputs[i].bytes@,
{
}

} // verus!

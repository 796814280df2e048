//! The output files.
use vstd::prelude::*;
use vstd::string::*;

use crate::error::ExtractError;
use crate::format::WavFormat;
use crate::header::write_wav_header;
use crate::text::push_decimal;

verus! {

/// The name of the output file with number `channel_no`.
pub open spec fn output_name(prefix: Seq<char>, channel_no: int) -> Seq<char> {
    prefix + "-"@ + crate::text::decimal(channel_no as nat) + ".wav"@
}

/// Why no channel of `total_frames` samples of `bytes_per_sample` bytes can be written, if none
/// can.
pub open spec fn size_fault(total_frames: u64, bytes_per_sample: usize) -> Option<ExtractError> {
    let bytes = total_frames * bytes_per_sample;
    if bytes > u64::MAX {
        Some(ExtractError::OutputSizeOverflow)
    } else if bytes > u32::MAX {
        Some(ExtractError::OutputTooLarge(bytes as u64))
    } else {
        None
    }
}

/// The output files that are created: their names, in the order of the channels, and what each
/// starts with, or why that cannot be written. In that case only the first file is created.
#[derive(Debug)]
pub struct OutputPlan {
    pub names: Vec<String>,
    pub header: Result<Vec<u8>, ExtractError>,
}

/// The name of the output file with number `channel_no`, such as `Channel-1.wav`.
pub fn output_file_name(prefix: &str, channel_no: usize) -> (name: String)
    ensures
        name@ == output_name(prefix@, channel_no as int),
{
    let mut name = String::new();
    name.append(prefix);
    name.append("-");
    push_decimal(&mut name, channel_no as u64);
    name.append(".wav");
    assert(name@ =~= output_name(prefix@, channel_no as int));
    name
}

/// The fault of the header of a mono output file with `total_frames` samples.
pub open spec fn mono_header_fault(
    format: WavFormat,
    total_frames: u64,
    bytes_per_sample: usize,
) -> Option<ExtractError> {
    crate::header::header_fault(
        1,
        format.sample_rate,
        format.bits_per_sample,
        (total_frames * bytes_per_sample) as u32,
    )
}

/// How many of `channel_count` output files are created, where the header has this fault.
pub open spec fn created_count(channel_count: usize, header_fault: Option<ExtractError>) -> int {
    if header_fault is None || channel_count == 0 {
        channel_count as int
    } else {
        1
    }
}

/// Plans one mono output file for each of `channel_count` channels, numbered from `channel_start`
/// on. Where their header cannot be written, that shows at the first of them.
pub fn create_output_writers(
    prefix: &str,
    channel_start: usize,
    channel_count: usize,
    format: &WavFormat,
    total_frames: u64,
    bytes_per_sample: usize,
) -> (result: Result<OutputPlan, ExtractError>)
    requires
        size_fault(total_frames, bytes_per_sample) is None && mono_header_fault(
            *format,
            total_frames,
            bytes_per_sample,
        ) is None ==> channel_start + channel_count <= usize::MAX + 1,
    ensures
        match result {
            Ok(plan) => {
                let fault = mono_header_fault(*format, total_frames, bytes_per_sample);
                &&& size_fault(total_frames, bytes_per_sample) is None
                &&& plan.names@.len() == created_count(channel_count, fault)
                &&& forall|i: int|
                    #![trigger plan.names@[i]]
                    0 <= i < plan.names@.len() ==> plan.names@[i]@ == output_name(
                        prefix@,
                        channel_start + i,
                    )
                &&& match plan.header {
                    Ok(header) => fault is None && header@ == crate::header::wav_header(
                        format.audio_format,
                        1,
                        format.sample_rate,
                        format.bits_per_sample,
                        (total_frames * bytes_per_sample) as u32,
                    ),
                    Err(error) => fault == Some(error),
                }
            },
            Err(error) => size_fault(total_frames, bytes_per_sample) == Some(error),
        },
{
    let bytes: u64 = match total_frames.checked_mul(bytes_per_sample as u64) {
        Some(bytes) => bytes,
        None => return Err(ExtractError::OutputSizeOverflow),
    };
    if bytes > u32::MAX as u64 {
        return Err(ExtractError::OutputTooLarge(bytes));
    }
    let mut header: Vec<u8> = Vec::new();
    let written = write_wav_header(
        &mut header,
        format.audio_format,
        1,
        format.sample_rate,
        format.bits_per_sample,
        bytes as u32,
    );
    let count: usize = if written.is_ok() || channel_count == 0 {
        channel_count
    } else {
        1
    };
    let mut names: Vec<String> = Vec::new();
    for i in 0..count
        invariant
            channel_start + count <= usize::MAX + 1,
            names@.len() == i,
            forall|k: int|
                #![trigger names@[k]]
                0 <= k < i ==> names@[k]@ == output_name(prefix@, channel_start + k),
    {
        names.push(output_file_name(prefix, channel_start + i));
    }
    let header: Result<Vec<u8>, ExtractError> = match written {
        Ok(()) => {
            assert(header@ =~= crate::header::wav_header(
                format.audio_format,
                1,
                format.sample_rate,
                format.bits_per_sample,
                bytes as u32,
            ));
            Ok(header)
        },
        Err(error) => Err(error),
    };
    Ok(OutputPlan { names, header })
}

/// The name of an output file is the prefix, a hyphen, the digits of the number, and `.wav`.
pub proof fn law_output_name_spelled(prefix: Seq<char>, channel_no: nat)
    ensures
        ({
            let name = output_name(prefix, channel_no as int);
            let digits = crate::text::decimal(channel_no);
            let at = prefix.len() as int;
            let end = at + 1 + digits.len();
            &&& name.len() == end + 4
            &&& name.subrange(0, at) == prefix
            &&& name[at] == '-'
            &&& name.subrange(at + 1, end) == digits
            &&& name[end] == '.' && name[end + 1] == 'w' && name[end + 2] == 'a' && name[end
                + 3] == 'v'
        }),
{
    let name = output_name(prefix, channel_no as int);
    let digits = crate::text::decimal(channel_no);
    let at = prefix.len() as int;
    let end = at + 1 + digits.len();
    reveal_strlit("-");
    reveal_strlit(".wav");
    assert(name.subrange(0, at) =~= prefix);
    assert(name.subrange(at + 1, end) =~= digits);
}

/// A channel can be written exactly where its bytes can be counted in four bytes; otherwise the
/// error tells their count, where that fits in eight bytes.
pub proof fn law_refused_sizes(total_frames: u64, bytes_per_sample: usize)
    ensures
        ({
            let bytes = total_frames * bytes_per_sample;
            let fault = size_fault(total_frames, bytes_per_sample);
            &&& fault is None <==> bytes < 0x1_0000_0000
            &&& 0x1_0000_0000 <= bytes <= u64::MAX ==> fault == Some(
                ExtractError::OutputTooLarge(bytes as u64),
            )
            &&& bytes > u64::MAX ==> fault == Some(ExtractError::OutputSizeOverflow)
        }),
{
}

/// Every output file that is planned is created, unless the header cannot be written: then the
/// first is, where there is one.
pub proof fn law_created_files(channel_count: usize, fault: Option<ExtractError>)
    ensures
        fault is None ==> created_count(channel_count, fault) == channel_count,
        fault is Some && channel_count > 0 ==> created_count(channel_count, fault) == 1,
        channel_count == 0 ==> created_count(channel_count, fault) == 0,
{
}

/// An output file has one channel: its header is refused exactly where the sample rate times the
/// bytes of a sample, or 36 more than the bytes of its samples, do not fit in four bytes.
pub proof fn law_outputs_are_mono(format: WavFormat, total_frames: u64, bytes_per_sample: usize)
    requires
        bytes_per_sample == crate::format::sample_bytes(format.bits_per_sample),
        total_frames * bytes_per_sample < 0x1_0000_0000,
    ensures
        mono_header_fault(format, total_frames, bytes_per_sample) is None <==> format.sample_rate
            * bytes_per_sample < 0x1_0000_0000 && 36 + total_frames * bytes_per_sample
            < 0x1_0000_0000,
        mono_header_fault(format, total_frames, bytes_per_sample) == Some(
            ExtractError::ByteRateOverflow,
        ) <==> format.sample_rate * bytes_per_sample >= 0x1_0000_0000,
{
    assert(0 <= total_frames * bytes_per_sample) by (nonlinear_arith)
        requires
            0 <= total_frames,
            0 <= bytes_per_sample,
    ;
    assert(1 * crate::format::sample_bytes(format.bits_per_sample) == bytes_per_sample);
    crate::header::law_refused_headers(
        1,
        format.sample_rate,
        format.bits_per_sample,
        (total_frames * bytes_per_sample) as u32,
    );
}

} // verus!

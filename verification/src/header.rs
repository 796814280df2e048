//! The start of an output file.
use vstd::prelude::*;

use crate::bytes::{push_le16, push_le32};
use crate::error::ExtractError;
use crate::format::bytes_per_sample;

verus! {

/// The byte count of the start of an output file, before its samples.
pub const HEADER_LEN: u32 = 44;

/// The bytes per second of samples.
pub open spec fn byte_rate(channels: u16, sample_rate: u32, bits_per_sample: u16) -> int {
    sample_rate * crate::format::frame_size(channels, bits_per_sample)
}

/// Why a WAV file with `data_size` bytes of such samples cannot be written, if it cannot.
pub open spec fn header_fault(
    channels: u16,
    sample_rate: u32,
    bits_per_sample: u16,
    data_size: u32,
) -> Option<ExtractError> {
    if byte_rate(channels, sample_rate, bits_per_sample) > u32::MAX {
        Some(ExtractError::ByteRateOverflow)
    } else if 36 + data_size > u32::MAX {
        Some(ExtractError::RiffSizeOverflow)
    } else {
        None
    }
}

/// The payload of the `fmt ` chunk of an output file.
pub open spec fn format_payload(
    audio_format: u16,
    channels: u16,
    sample_rate: u32,
    bits_per_sample: u16,
) -> Seq<u8> {
    crate::bytes::le16(audio_format) + crate::bytes::le16(channels) + crate::bytes::le32(
        sample_rate,
    ) + crate::bytes::le32(byte_rate(channels, sample_rate, bits_per_sample) as u32)
        + crate::bytes::le16(crate::format::frame_size(channels, bits_per_sample) as u16)
        + crate::bytes::le16(bits_per_sample)
}

/// What stands before `data_size` bytes of samples in a WAV file: the start of the file, a `fmt `
/// chunk, and the name and size of the `data` chunk.
pub open spec fn wav_header(
    audio_format: u16,
    channels: u16,
    sample_rate: u32,
    bits_per_sample: u16,
    data_size: u32,
) -> Seq<u8> {
    crate::parse::riff_tag() + crate::bytes::le32((36 + data_size) as u32)
        + crate::parse::wave_tag() + crate::parse::fmt_tag() + crate::bytes::le32(16)
        + format_payload(audio_format, channels, sample_rate, bits_per_sample)
        + crate::parse::data_tag() + crate::bytes::le32(data_size)
}

/// Appends four bytes.
fn push_tag(w: &mut Vec<u8>, a: u8, b: u8, c: u8, d: u8)
    ensures
        final(w)@ == old(w)@ + seq![a, b, c, d],
{
    w.push(a);
    w.push(b);
    w.push(c);
    w.push(d);
}

/// Appends what stands before `data_size` bytes of samples in a WAV file. Where there can be no
/// such file, nothing is appended.
///
/// The byte count of a frame is computed in 16 bits, so it has to fit wherever it is computed.
pub fn write_wav_header(
    w: &mut Vec<u8>,
    audio_format: u16,
    channels: u16,
    sample_rate: u32,
    bits_per_sample: u16,
    data_size: u32,
) -> (result: Result<(), ExtractError>)
    requires
        byte_rate(channels, sample_rate, bits_per_sample) <= u32::MAX ==> crate::format::frame_size(
            channels,
            bits_per_sample,
        ) <= u16::MAX,
    ensures
        match result {
            Ok(()) => header_fault(channels, sample_rate, bits_per_sample, data_size) is None
                && final(w)@ == old(w)@ + wav_header(
                audio_format,
                channels,
                sample_rate,
                bits_per_sample,
                data_size,
            ),
            Err(error) => header_fault(channels, sample_rate, bits_per_sample, data_size) == Some(
                error,
            ) && final(w)@ == old(w)@,
        },
{
    let bytes: u32 = bytes_per_sample(bits_per_sample) as u32;
    let channels_wide: u32 = channels as u32;
    proof {
        assert(0 <= channels_wide * bytes <= 65535 * 8192) by (nonlinear_arith)
            requires
                0 <= channels_wide <= 65535,
                0 <= bytes <= 8192,
        ;
    }
    let frame: u32 = channels_wide * bytes;
    let rate: u32 = match sample_rate.checked_mul(frame) {
        Some(rate) => rate,
        None => return Err(ExtractError::ByteRateOverflow),
    };
    let riff_size: u32 = match 36u32.checked_add(data_size) {
        Some(riff_size) => riff_size,
        None => return Err(ExtractError::RiffSizeOverflow),
    };
    push_tag(w, 0x52, 0x49, 0x46, 0x46);
    push_le32(w, riff_size);
    push_tag(w, 0x57, 0x41, 0x56, 0x45);
    push_tag(w, 0x66, 0x6d, 0x74, 0x20);
    push_le32(w, 16);
    push_le16(w, audio_format);
    push_le16(w, channels);
    push_le32(w, sample_rate);
    push_le32(w, rate);
    push_le16(w, frame as u16);
    push_le16(w, bits_per_sample);
    push_tag(w, 0x64, 0x61, 0x74, 0x61);
    push_le32(w, data_size);
    proof {
        assert(w@ =~= old(w)@ + wav_header(
            audio_format,
            channels,
            sample_rate,
            bits_per_sample,
            data_size,
        ));
    }
    Ok(())
}

/// Where the fields of a WAV header stand and what they hold: the size of all that follows the
/// first eight bytes, the format, the bytes per second and per frame, and the size of the samples.
pub proof fn law_header_fields(
    audio_format: u16,
    channels: u16,
    sample_rate: u32,
    bits_per_sample: u16,
    data_size: u32,
)
    requires
        header_fault(channels, sample_rate, bits_per_sample, data_size) is None,
        channels * crate::format::sample_bytes(bits_per_sample) <= u16::MAX,
    ensures
        ({
            let h = wav_header(audio_format, channels, sample_rate, bits_per_sample, data_size);
            let frame = channels * crate::format::sample_bytes(bits_per_sample);
            &&& h.len() == 44
            &&& h.subrange(0, 4) == seq![0x52u8, 0x49, 0x46, 0x46]
            &&& h[4] + 0x100 * h[5] + 0x1_0000 * h[6] + 0x100_0000 * h[7] == h.len() - 8 + data_size
            &&& h.subrange(8, 12) == seq![0x57u8, 0x41, 0x56, 0x45]
            &&& h.subrange(12, 16) == seq![0x66u8, 0x6d, 0x74, 0x20]
            &&& h[16] + 0x100 * h[17] + 0x1_0000 * h[18] + 0x100_0000 * h[19] == 16
            &&& h[20] + 0x100 * h[21] == audio_format
            &&& h[22] + 0x100 * h[23] == channels
            &&& h[24] + 0x100 * h[25] + 0x1_0000 * h[26] + 0x100_0000 * h[27] == sample_rate
            &&& h[28] + 0x100 * h[29] + 0x1_0000 * h[30] + 0x100_0000 * h[31] == sample_rate * frame
            &&& h[32] + 0x100 * h[33] == frame
            &&& h[34] + 0x100 * h[35] == bits_per_sample
            &&& h.subrange(36, 40) == seq![0x64u8, 0x61, 0x74, 0x61]
            &&& h[40] + 0x100 * h[41] + 0x1_0000 * h[42] + 0x100_0000 * h[43] == data_size
        }),
{
    let h = wav_header(audio_format, channels, sample_rate, bits_per_sample, data_size);
    let frame = channels * crate::format::sample_bytes(bits_per_sample);
    crate::bytes::law_written_little_endian(audio_format, (36 + data_size) as u32);
    crate::bytes::law_written_little_endian(channels, sample_rate);
    crate::bytes::law_written_little_endian(frame as u16, (sample_rate * frame) as u32);
    crate::bytes::law_written_little_endian(bits_per_sample, data_size);
    crate::bytes::law_written_little_endian(0, 16);
    assert(0 <= sample_rate * frame) by (nonlinear_arith)
        requires
            0 <= sample_rate,
            0 <= frame,
    ;
    assert(h.subrange(0, 4) =~= seq![0x52u8, 0x49, 0x46, 0x46]);
    assert(h.subrange(4, 8) =~= crate::bytes::le32((36 + data_size) as u32));
    assert(h.subrange(8, 12) =~= seq![0x57u8, 0x41, 0x56, 0x45]);
    assert(h.subrange(12, 16) =~= seq![0x66u8, 0x6d, 0x74, 0x20]);
    assert(h.subrange(16, 20) =~= crate::bytes::le32(16));
    assert(h.subrange(20, 22) =~= crate::bytes::le16(audio_format));
    assert(h.subrange(22, 24) =~= crate::bytes::le16(channels));
    assert(h.subrange(24, 28) =~= crate::bytes::le32(sample_rate));
    assert(h.subrange(28, 32) =~= crate::bytes::le32((sample_rate * frame) as u32));
    assert(h.subrange(32, 34) =~= crate::bytes::le16(frame as u16));
    assert(h.subrange(34, 36) =~= crate::bytes::le16(bits_per_sample));
    assert(h.subrange(36, 40) =~= seq![0x64u8, 0x61, 0x74, 0x61]);
    assert(h.subrange(40, 44) =~= crate::bytes::le32(data_size));
    assert(h.subrange(4, 8)[0] == h[4] && h.subrange(4, 8)[1] == h[5] && h.subrange(4, 8)[2] == h[6]
        && h.subrange(4, 8)[3] == h[7]);
    assert(h.subrange(16, 20)[0] == h[16] && h.subrange(16, 20)[1] == h[17] && h.subrange(
        16,
        20,
    )[2] == h[18] && h.subrange(16, 20)[3] == h[19]);
    assert(h.subrange(20, 22)[0] == h[20] && h.subrange(20, 22)[1] == h[21]);
    assert(h.subrange(22, 24)[0] == h[22] && h.subrange(22, 24)[1] == h[23]);
    assert(h.subrange(24, 28)[0] == h[24] && h.subrange(24, 28)[1] == h[25] && h.subrange(
        24,
        28,
    )[2] == h[26] && h.subrange(24, 28)[3] == h[27]);
    assert(h.subrange(28, 32)[0] == h[28] && h.subrange(28, 32)[1] == h[29] && h.subrange(
        28,
        32,
    )[2] == h[30] && h.subrange(28, 32)[3] == h[31]);
    assert(h.subrange(32, 34)[0] == h[32] && h.subrange(32, 34)[1] == h[33]);
    assert(h.subrange(34, 36)[0] == h[34] && h.subrange(34, 36)[1] == h[35]);
    assert(h.subrange(40, 44)[0] == h[40] && h.subrange(40, 44)[1] == h[41] && h.subrange(
        40,
        44,
    )[2] == h[42] && h.subrange(40, 44)[3] == h[43]);
}

/// A header is refused exactly where the bytes per second or the size of what follows its first
/// eight bytes do not fit in four bytes; the bytes per second are named first.
pub proof fn law_refused_headers(
    channels: u16,
    sample_rate: u32,
    bits_per_sample: u16,
    data_size: u32,
)
    ensures
        ({
            let frame = channels * crate::format::sample_bytes(bits_per_sample);
            let fault = header_fault(channels, sample_rate, bits_per_sample, data_size);
            &&& fault is None <==> sample_rate * frame < 0x1_0000_0000 && 36 + data_size
                < 0x1_0000_0000
            &&& fault == Some(ExtractError::ByteRateOverflow) <==> sample_rate * frame
                >= 0x1_0000_0000
            &&& fault is Some ==> fault == Some(ExtractError::ByteRateOverflow) || fault == Some(
                ExtractError::RiffSizeOverflow,
            )
        }),
{
}

} // verus!

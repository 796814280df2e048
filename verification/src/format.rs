//! The sample format of a WAV recording.
use vstd::prelude::*;

use crate::error::ExtractError;

verus! {

/// The sample encoding of integer PCM.
pub const PCM: u16 = 1;

/// The sample encoding of IEEE floating point.
pub const IEEE_FLOAT: u16 = 3;

/// The format that a `fmt ` chunk declares.
#[derive(Debug, Clone, Copy, PartialEq, Eq, Structural)]
pub struct WavFormat {
    pub audio_format: u16,
    pub channels: u16,
    pub sample_rate: u32,
    pub bits_per_sample: u16,
    pub block_align: u16,
}

/// The whole number of bytes that hold one sample of `bits_per_sample` bits.
pub open spec fn sample_bytes(bits_per_sample: u16) -> int {
    (bits_per_sample + 7) / 8
}

/// The byte count of one sample of each of `channels` channels.
pub open spec fn frame_size(channels: u16, bits_per_sample: u16) -> int {
    channels * sample_bytes(bits_per_sample)
}

impl WavFormat {
    /// Why samples of this format cannot be split into channels, if they cannot.
    pub open spec fn fault(self) -> Option<ExtractError> {
        if self.channels == 0 {
            Some(ExtractError::ZeroChannels)
        } else if self.audio_format != PCM && self.audio_format != IEEE_FLOAT {
            Some(ExtractError::UnsupportedFormat(self.audio_format))
        } else if self.bits_per_sample == 0 {
            Some(ExtractError::InvalidBitsPerSample(self.bits_per_sample))
        } else if frame_size(self.channels, self.bits_per_sample) != self.block_align {
            Some(
                ExtractError::InvalidBlockAlign {
                    block_align: self.block_align,
                    channels: self.channels,
                    bits_per_sample: self.bits_per_sample,
                },
            )
        } else {
            None
        }
    }
}

/// The whole number of bytes that hold one sample of `bits_per_sample` bits: the smallest count
/// with room for all of them.
pub fn bytes_per_sample(bits_per_sample: u16) -> (bytes: usize)
    ensures
        bytes == sample_bytes(bits_per_sample),
        8 * bytes >= bits_per_sample,
        8 * bytes < bits_per_sample + 8,
{
    let bits: u32 = bits_per_sample as u32;
    ((bits + 7) / 8) as usize
}

/// Checks that samples of `format` can be split into channels, and gives the byte count of one
/// sample.
pub fn check_format(format: &WavFormat) -> (result: Result<usize, ExtractError>)
    ensures
        match result {
            Ok(bytes) => format.fault() is None && bytes == sample_bytes(format.bits_per_sample)
                && 0 < bytes,
            Err(error) => format.fault() == Some(error),
        },
{
    if format.channels == 0 {
        return Err(ExtractError::ZeroChannels);
    }
    if format.audio_format != PCM && format.audio_format != IEEE_FLOAT {
        return Err(ExtractError::UnsupportedFormat(format.audio_format));
    }
    let bytes: usize = bytes_per_sample(format.bits_per_sample);
    if bytes == 0 {
        return Err(ExtractError::InvalidBitsPerSample(format.bits_per_sample));
    }
    let channels: u32 = format.channels as u32;
    let sample: u32 = bytes as u32;
    proof {
        assert(0 <= channels * sample <= 65535 * 8192) by (nonlinear_arith)
            requires
                0 <= channels <= 65535,
                0 <= sample <= 8192,
        ;
    }
    if channels * sample != format.block_align as u32 {
        return Err(
            ExtractError::InvalidBlockAlign {
                block_align: format.block_align,
                channels: format.channels,
                bits_per_sample: format.bits_per_sample,
            },
        );
    }
    Ok(bytes)
}

/// A sample takes the least whole number of bytes that has room for its bits, and a frame takes
/// one such sample for each channel.
pub proof fn law_samples_take_whole_bytes(channels: u16, bits_per_sample: u16)
    ensures
        8 * sample_bytes(bits_per_sample) >= bits_per_sample,
        8 * (sample_bytes(bits_per_sample) - 1) < bits_per_sample,
        frame_size(channels, bits_per_sample) == channels * sample_bytes(bits_per_sample),
{
}

/// A format is accepted exactly where it is PCM or IEEE float, has channels and bits, and its
/// frames are one sample of each channel. Where more than one of these fails, the channels are
/// named first, then the encoding, then the bits, then the frames.
pub proof fn law_accepted_formats(format: WavFormat)
    ensures
        format.fault() is None <==> {
            &&& format.channels > 0
            &&& format.audio_format == 1 || format.audio_format == 3
            &&& format.bits_per_sample > 0
            &&& exists|bytes: int|
                #![trigger format.channels * bytes]
                8 * (bytes - 1) < format.bits_per_sample <= 8 * bytes && format.channels * bytes
                    == format.block_align
        },
        format.channels == 0 <==> format.fault() == Some(ExtractError::ZeroChannels),
        format.channels > 0 && format.audio_format != 1 && format.audio_format != 3
            <==> format.fault() == Some(ExtractError::UnsupportedFormat(format.audio_format)),
        format.channels > 0 && (format.audio_format == 1 || format.audio_format == 3)
            && format.bits_per_sample == 0 <==> format.fault() == Some(
            ExtractError::InvalidBitsPerSample(0),
        ),
        format.channels > 0 && (format.audio_format == 1 || format.audio_format == 3)
            && format.bits_per_sample > 0 && format.channels * sample_bytes(format.bits_per_sample)
            != format.block_align <==> format.fault() == Some(
            ExtractError::InvalidBlockAlign {
                block_align: format.block_align,
                channels: format.channels,
                bits_per_sample: format.bits_per_sample,
            },
        ),
{
    let bytes = sample_bytes(format.bits_per_sample);
    law_samples_take_whole_bytes(format.channels, format.bits_per_sample);
    assert(frame_size(format.channels, format.bits_per_sample) == format.channels * bytes);
}

} // verus!

//! Why an extraction is refused.
use vstd::prelude::*;

use crate::format::WavFormat;

verus! {

/// Why an extraction is refused.
#[derive(Debug, Clone, Copy, PartialEq, Eq, Structural)]
pub enum ExtractError {
    /// The input at this index is a file whose name does not end in `.wav`.
    NotWav(usize),
    /// The input at this index is neither a file nor a directory.
    MissingInput(usize),
    /// No WAV file was found.
    NoWavFiles,
    /// The file ends within the twelve bytes that start a WAV file.
    TruncatedHeader,
    /// The file does not start with `RIFF`.
    NotRiff,
    /// The RIFF file is of another form than `WAVE`.
    NotWave,
    /// The file ends within a `fmt ` chunk.
    TruncatedFormat,
    /// A `fmt ` chunk of this length is too short to hold a format.
    InvalidFormatLength(u32),
    /// The file has no `fmt ` chunk.
    MissingFormat,
    /// The file has no `data` chunk.
    NoData,
    /// The sample data does not divide into whole frames.
    UnalignedData,
    /// The frames of all inputs together do not fit in 64 bits.
    FrameCountOverflow,
    /// The inputs do not share one format.
    FormatMismatch { expected: WavFormat, found: WavFormat },
    /// The recording has no channels.
    ZeroChannels,
    /// The sample encoding is neither PCM nor IEEE float.
    UnsupportedFormat(u16),
    /// A sample has no bits.
    InvalidBitsPerSample(u16),
    /// The frame size is not that of the channels at the sample size.
    InvalidBlockAlign { block_align: u16, channels: u16, bits_per_sample: u16 },
    /// The byte count of an output channel does not fit in 64 bits.
    OutputSizeOverflow,
    /// The byte count of an output channel does not fit in a WAV file.
    OutputTooLarge(u64),
    /// The bytes per second of the output do not fit in 32 bits.
    ByteRateOverflow,
    /// The byte count of an output file does not fit in 32 bits.
    RiffSizeOverflow,
    /// A data chunk of the part at this index ends within a frame.
    UnalignedChunk(usize),
}

} // verus!

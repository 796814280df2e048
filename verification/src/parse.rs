//! The chunks of a WAV file.
//!
//! A WAV file starts with twelve bytes, `RIFF`, a size and `WAVE`, and is a run of chunks from
//! there on: four bytes of name, four bytes of payload size, the payload, and one byte of padding
//! where the size is odd. The `fmt ` chunk declares the sample format; the `data` chunks hold the
//! samples. A `data` chunk may claim more bytes than the file has, as the last segment of an
//! interrupted recording does: what is there counts, and nothing follows it.
//!
//! Recordings are large, so [`ChunkScan`] walks the chunks without the payloads: it says which
//! few bytes of the file it wants next and is handed them. [`parse_input_part`] walks a file that
//! is in memory.
use vstd::prelude::*;

use crate::bytes::{read_le16, read_le32};
use crate::error::ExtractError;
use crate::format::WavFormat;

verus! {

/// The bytes of one `data` chunk within its file.
#[derive(Debug, Clone, Copy, PartialEq, Eq, Structural)]
pub struct DataRegion {
    pub offset: u64,
    pub len: u64,
}

/// What a WAV file says of itself: its format, and where its samples stand.
#[derive(Debug, PartialEq, Eq)]
pub struct InputPart {
    pub format: WavFormat,
    pub data_regions: Vec<DataRegion>,
}

/// An [`InputPart`] as a mathematical value.
#[verifier::ext_equal]
pub struct PartView {
    pub format: WavFormat,
    pub data_regions: Seq<DataRegion>,
}

impl View for InputPart {
    type V = PartView;

    open spec fn view(&self) -> PartView {
        PartView { format: self.format, data_regions: self.data_regions@ }
    }
}

/// The byte count of the start of a WAV file, before its first chunk.
pub const RIFF_LEN: u64 = 12;

/// The byte count of a chunk's name and size.
pub const CHUNK_HEADER_LEN: u64 = 8;

/// The least payload size of a `fmt ` chunk.
pub const MIN_FORMAT_LEN: u32 = 16;

/// `RIFF`
pub open spec fn riff_tag() -> Seq<u8> {
    seq![0x52u8, 0x49, 0x46, 0x46]
}

/// `WAVE`
pub open spec fn wave_tag() -> Seq<u8> {
    seq![0x57u8, 0x41, 0x56, 0x45]
}

/// `fmt `
pub open spec fn fmt_tag() -> Seq<u8> {
    seq![0x66u8, 0x6d, 0x74, 0x20]
}

/// `data`
pub open spec fn data_tag() -> Seq<u8> {
    seq![0x64u8, 0x61, 0x74, 0x61]
}

/// Whether the four bytes of `s` at `at` are `tag`.
pub open spec fn tag_at(s: Seq<u8>, at: int, tag: Seq<u8>) -> bool {
    s.subrange(at, at + 4) == tag
}

/// The format that the payload of a `fmt ` chunk declares.
pub open spec fn declared_format(payload: Seq<u8>) -> WavFormat {
    WavFormat {
        audio_format: crate::bytes::le16_at(payload, 0),
        channels: crate::bytes::le16_at(payload, 2),
        sample_rate: crate::bytes::le32_at(payload, 4),
        bits_per_sample: crate::bytes::le16_at(payload, 14),
        block_align: crate::bytes::le16_at(payload, 12),
    }
}

/// Where the chunk after one with `size` bytes of payload at `payload` starts.
pub open spec fn next_chunk(payload: int, size: u32) -> int {
    payload + size + size % 2
}

/// How many bytes of a file of `file_len` bytes stand at `pos` or behind it.
pub open spec fn bytes_left(file_len: int, pos: int) -> int {
    if pos <= file_len {
        file_len - pos
    } else {
        0
    }
}

/// What a file says of itself whose chunks are all read.
pub open spec fn finished(format: Option<WavFormat>, data_regions: Seq<DataRegion>) -> Result<
    PartView,
    ExtractError,
> {
    match format {
        Some(format) => Ok(PartView { format, data_regions }),
        None => Err(ExtractError::MissingFormat),
    }
}

/// What the chunks of `file` from `pos` on say, where those before declared `format` and hold
/// `data_regions`.
pub open spec fn chunks_from(
    file: Seq<u8>,
    pos: int,
    format: Option<WavFormat>,
    data_regions: Seq<DataRegion>,
) -> Result<PartView, ExtractError>
    decreases bytes_left(file.len() as int, pos),
{
    let payload = pos + CHUNK_HEADER_LEN;
    let size = crate::bytes::le32_at(file, pos + 4);
    let available = file.len() - payload;
    if payload > file.len() {
        finished(format, data_regions)
    } else if tag_at(file, pos, fmt_tag()) {
        if size > available {
            Err(ExtractError::TruncatedFormat)
        } else if size < MIN_FORMAT_LEN {
            Err(ExtractError::InvalidFormatLength(size))
        } else {
            let declared = declared_format(file.subrange(payload, payload + size));
            chunks_from(file, next_chunk(payload, size), Some(declared), data_regions)
        }
    } else if tag_at(file, pos, data_tag()) {
        if size > available {
            finished(
                format,
                data_regions.push(DataRegion { offset: payload as u64, len: available as u64 }),
            )
        } else {
            chunks_from(
                file,
                next_chunk(payload, size),
                format,
                data_regions.push(DataRegion { offset: payload as u64, len: size as u64 }),
            )
        }
    } else {
        chunks_from(file, next_chunk(payload, size), format, data_regions)
    }
}

/// Why `start`, the first bytes of a file, do not start a WAV file, if they do not.
pub open spec fn start_fault(start: Seq<u8>) -> Option<ExtractError> {
    if start.len() < RIFF_LEN {
        Some(ExtractError::TruncatedHeader)
    } else if !tag_at(start, 0, riff_tag()) {
        Some(ExtractError::NotRiff)
    } else if !tag_at(start, 8, wave_tag()) {
        Some(ExtractError::NotWave)
    } else {
        None
    }
}

/// What the file with these bytes says of itself.
pub open spec fn parsed(file: Seq<u8>) -> Result<PartView, ExtractError> {
    match start_fault(file) {
        Some(error) => Err(error),
        None => chunks_from(file, RIFF_LEN as int, None, Seq::empty()),
    }
}

/// What a [`ChunkScan`] wants to be handed.
#[derive(Debug, Clone, Copy, PartialEq, Eq, Structural)]
pub enum ScanRequest {
    /// The eight bytes at this offset, for [`ChunkScan::take_header`].
    Header { offset: u64 },
    /// The bytes of a `fmt ` payload, for [`ChunkScan::take_format`].
    Format { offset: u64, len: u32 },
    /// Nothing: [`ChunkScan::finish`] gives the result.
    Nothing,
}

/// A walk over the chunks of a file of `file_len` bytes.
///
/// The next chunk stands at `position`, or, where `pending_format` holds the payload size of a
/// `fmt ` chunk, that payload does. A stopped walk has met its last chunk.
#[derive(Debug)]
pub struct ChunkScan {
    pub file_len: u64,
    pub position: u64,
    pub pending_format: Option<u32>,
    pub stopped: bool,
    pub format: Option<WavFormat>,
    pub data_regions: Vec<DataRegion>,
}

/// A [`ChunkScan`] as a mathematical value.
#[verifier::ext_equal]
pub struct ScanView {
    pub file_len: u64,
    pub position: u64,
    pub pending_format: Option<u32>,
    pub stopped: bool,
    pub format: Option<WavFormat>,
    pub data_regions: Seq<DataRegion>,
}

impl View for ChunkScan {
    type V = ScanView;

    open spec fn view(&self) -> ScanView {
        ScanView {
            file_len: self.file_len,
            position: self.position,
            pending_format: self.pending_format,
            stopped: self.stopped,
            format: self.format,
            data_regions: self.data_regions@,
        }
    }
}

/// The offset of the chunk after one with `size` bytes of payload at `payload`, or the greatest
/// offset that there is: no file has a chunk there either.
pub open spec fn next_offset(payload: int, size: u32) -> u64 {
    let next = next_chunk(payload, size);
    if next <= u64::MAX {
        next as u64
    } else {
        u64::MAX
    }
}

impl ScanView {
    /// A walk that is about to read the first chunk of a file of `file_len` bytes.
    pub open spec fn at_start(file_len: u64) -> ScanView {
        ScanView {
            file_len,
            position: RIFF_LEN,
            pending_format: None,
            stopped: false,
            format: None,
            data_regions: Seq::empty(),
        }
    }

    /// What the walk wants to be handed.
    pub open spec fn request(self) -> ScanRequest {
        match self.pending_format {
            Some(len) => ScanRequest::Format { offset: self.position, len },
            None => if self.stopped || self.position + CHUNK_HEADER_LEN > self.file_len {
                ScanRequest::Nothing
            } else {
                ScanRequest::Header { offset: self.position }
            },
        }
    }

    /// The walk once it has the name and size of the chunk at its position.
    pub open spec fn after_header(self, header: Seq<u8>) -> Result<ScanView, ExtractError> {
        let payload = self.position + CHUNK_HEADER_LEN;
        let size = crate::bytes::le32_at(header, 4);
        let available = self.file_len - payload;
        if tag_at(header, 0, fmt_tag()) {
            if size > available {
                Err(ExtractError::TruncatedFormat)
            } else {
                Ok(ScanView { position: payload as u64, pending_format: Some(size), ..self })
            }
        } else if tag_at(header, 0, data_tag()) {
            let len = if size > available {
                available
            } else {
                size as int
            };
            Ok(
                ScanView {
                    position: next_offset(payload, size),
                    stopped: size > available,
                    data_regions: self.data_regions.push(
                        DataRegion { offset: payload as u64, len: len as u64 },
                    ),
                    ..self
                },
            )
        } else {
            Ok(ScanView { position: next_offset(payload, size), ..self })
        }
    }

    /// The walk once it has the payload of the `fmt ` chunk at its position.
    pub open spec fn after_format(self, payload: Seq<u8>) -> Result<ScanView, ExtractError> {
        let size = payload.len() as u32;
        if size < MIN_FORMAT_LEN {
            Err(ExtractError::InvalidFormatLength(size))
        } else {
            Ok(
                ScanView {
                    position: next_offset(self.position as int, size),
                    pending_format: None,
                    format: Some(declared_format(payload)),
                    ..self
                },
            )
        }
    }

    /// What the walk comes to over `file`.
    pub open spec fn outcome(self, file: Seq<u8>) -> Result<PartView, ExtractError> {
        match self.pending_format {
            Some(len) => match self.after_format(
                file.subrange(self.position as int, self.position + len),
            ) {
                Ok(next) => if next.stopped {
                    finished(next.format, next.data_regions)
                } else {
                    chunks_from(file, next.position as int, next.format, next.data_regions)
                },
                Err(error) => Err(error),
            },
            None => if self.stopped {
                finished(self.format, self.data_regions)
            } else {
                chunks_from(file, self.position as int, self.format, self.data_regions)
            },
        }
    }
}

/// Beyond the end of the file it does not matter how far.
proof fn lemma_chunks_from_offset(
    file: Seq<u8>,
    payload: int,
    size: u32,
    format: Option<WavFormat>,
    data_regions: Seq<DataRegion>,
)
    requires
        file.len() <= u64::MAX,
        0 <= payload,
    ensures
        chunks_from(file, next_offset(payload, size) as int, format, data_regions) == chunks_from(
            file,
            next_chunk(payload, size),
            format,
            data_regions,
        ),
{
}

/// A walk over a file that starts as a WAV file does comes to what the file says of itself.
pub proof fn law_walk_starts_file(file: Seq<u8>)
    requires
        file.len() <= u64::MAX,
        start_fault(file) is None,
    ensures
        ScanView::at_start(file.len() as u64).outcome(file) == parsed(file),
{
}

/// Handing a walk over a file the header that it asks for does not change what it comes to, and
/// where the walk fails on that header, the file is refused with that error.
pub proof fn law_header_keeps_outcome(scan: ScanView, offset: u64, file: Seq<u8>)
    requires
        scan.file_len == file.len(),
        scan.request() == (ScanRequest::Header { offset }),
    ensures
        match scan.after_header(file.subrange(offset as int, offset + CHUNK_HEADER_LEN)) {
            Ok(next) => next.outcome(file) == scan.outcome(file),
            Err(error) => scan.outcome(file) == Err::<PartView, ExtractError>(error),
        },
{
    let pos = offset as int;
    let header = file.subrange(pos, pos + CHUNK_HEADER_LEN);
    let payload = pos + CHUNK_HEADER_LEN;
    let size = crate::bytes::le32_at(file, pos + 4);
    assert(header.subrange(0, 4) =~= file.subrange(pos, pos + 4));
    assert(crate::bytes::le32_at(header, 4) == size);
    if let Ok(next) = scan.after_header(header) {
        lemma_chunks_from_offset(file, payload, size, next.format, next.data_regions);
        if next.pending_format is Some && size >= MIN_FORMAT_LEN {
            let declared = declared_format(file.subrange(payload, payload + size));
            lemma_chunks_from_offset(file, payload, size, Some(declared), next.data_regions);
        }
    }
}

/// Handing a walk over a file the format that it asks for does not change what it comes to, and
/// where the walk fails on that format, the file is refused with that error.
pub proof fn law_format_keeps_outcome(scan: ScanView, offset: u64, len: u32, file: Seq<u8>)
    requires
        scan.request() == (ScanRequest::Format { offset, len }),
    ensures
        match scan.after_format(file.subrange(offset as int, offset + len)) {
            Ok(next) => next.outcome(file) == scan.outcome(file),
            Err(error) => scan.outcome(file) == Err::<PartView, ExtractError>(error),
        },
{
}

/// A walk over a file that wants nothing more has come to its result.
pub proof fn law_finish_gives_outcome(scan: ScanView, file: Seq<u8>)
    requires
        scan.file_len == file.len(),
        scan.request() == ScanRequest::Nothing,
    ensures
        scan.outcome(file) == finished(scan.format, scan.data_regions),
{
}

/// Whether the four bytes of `s` at `at` are `a`, `b`, `c` and `d`.
fn has_tag(s: &[u8], at: usize, a: u8, b: u8, c: u8, d: u8) -> (is: bool)
    requires
        at + 4 <= s@.len(),
    ensures
        is == tag_at(s@, at as int, seq![a, b, c, d]),
{
    let ghost found = s@.subrange(at as int, at + 4);
    let is = s[at] == a && s[at + 1] == b && s[at + 2] == c && s[at + 3] == d;
    assert(is ==> found =~= seq![a, b, c, d]);
    assert(found[0] == s@[at as int] && found[1] == s@[at + 1] && found[2] == s@[at + 2]
        && found[3] == s@[at + 3]);
    is
}

/// Computes [`next_offset`].
fn offset_after(payload: u64, size: u32) -> (offset: u64)
    ensures
        offset == next_offset(payload as int, size),
{
    payload.saturating_add(size as u64 + (size % 2) as u64)
}

impl ChunkScan {
    /// Starts a walk over a file of `file_len` bytes, whose first bytes are `start`.
    pub fn begin(start: &[u8], file_len: u64) -> (result: Result<ChunkScan, ExtractError>)
        ensures
            match result {
                Ok(scan) => start_fault(start@) is None && scan@ == ScanView::at_start(file_len),
                Err(error) => start_fault(start@) == Some(error),
            },
    {
        if start.len() < RIFF_LEN as usize {
            return Err(ExtractError::TruncatedHeader);
        }
        if !has_tag(start, 0, 0x52, 0x49, 0x46, 0x46) {
            return Err(ExtractError::NotRiff);
        }
        if !has_tag(start, 8, 0x57, 0x41, 0x56, 0x45) {
            return Err(ExtractError::NotWave);
        }
        Ok(
            ChunkScan {
                file_len,
                position: RIFF_LEN,
                pending_format: None,
                stopped: false,
                format: None,
                data_regions: Vec::new(),
            },
        )
    }

    /// What the walk wants to be handed.
    pub fn request(&self) -> (request: ScanRequest)
        ensures
            request == self@.request(),
    {
        match self.pending_format {
            Some(len) => ScanRequest::Format { offset: self.position, len },
            None => if self.stopped || self.file_len < CHUNK_HEADER_LEN || self.position
                > self.file_len - CHUNK_HEADER_LEN {
                ScanRequest::Nothing
            } else {
                ScanRequest::Header { offset: self.position }
            },
        }
    }

    /// Hands the walk the name and size of the chunk at its position. Where it fails, the walk is
    /// left as it was.
    pub fn take_header(&mut self, header: &[u8]) -> (result: Result<(), ExtractError>)
        requires
            old(self)@.request() is Header,
            header@.len() == CHUNK_HEADER_LEN,
        ensures
            match result {
                Ok(()) => old(self)@.after_header(header@) == Ok::<ScanView, ExtractError>(
                    final(self)@,
                ),
                Err(error) => old(self)@.after_header(header@) == Err::<ScanView, ExtractError>(
                    error,
                ) && final(self)@ == old(self)@,
            },
    {
        let payload: u64 = self.position + CHUNK_HEADER_LEN;
        let size: u32 = read_le32(header, 4);
        let available: u64 = self.file_len - payload;
        if has_tag(header, 0, 0x66, 0x6d, 0x74, 0x20) {
            if size as u64 > available {
                return Err(ExtractError::TruncatedFormat);
            }
            self.position = payload;
            self.pending_format = Some(size);
        } else if has_tag(header, 0, 0x64, 0x61, 0x74, 0x61) {
            let len: u64 = if size as u64 > available {
                available
            } else {
                size as u64
            };
            self.data_regions.push(DataRegion { offset: payload, len });
            self.position = offset_after(payload, size);
            self.stopped = size as u64 > available;
        } else {
            self.position = offset_after(payload, size);
        }
        Ok(())
    }

    /// Hands the walk the payload of the `fmt ` chunk at its position. Where it fails, the walk is
    /// left as it was.
    pub fn take_format(&mut self, payload: &[u8]) -> (result: Result<(), ExtractError>)
        requires
            old(self)@.request() is Format,
            payload@.len() == old(self)@.request()->len,
        ensures
            match result {
                Ok(()) => old(self)@.after_format(payload@) == Ok::<ScanView, ExtractError>(
                    final(self)@,
                ),
                Err(error) => old(self)@.after_format(payload@) == Err::<ScanView, ExtractError>(
                    error,
                ) && final(self)@ == old(self)@,
            },
    {
        let size: u32 = payload.len() as u32;
        if size < MIN_FORMAT_LEN {
            return Err(ExtractError::InvalidFormatLength(size));
        }
        self.format = Some(
            WavFormat {
                audio_format: read_le16(payload, 0),
                channels: read_le16(payload, 2),
                sample_rate: read_le32(payload, 4),
                bits_per_sample: read_le16(payload, 14),
                block_align: read_le16(payload, 12),
            },
        );
        self.position = offset_after(self.position, size);
        self.pending_format = None;
        Ok(())
    }

    /// What the chunks that the walk has met say of the file.
    pub fn finish(self) -> (result: Result<InputPart, ExtractError>)
        ensures
            match result {
                Ok(part) => finished(self@.format, self@.data_regions) == Ok::<
                    PartView,
                    ExtractError,
                >(part@),
                Err(error) => finished(self@.format, self@.data_regions) == Err::<
                    PartView,
                    ExtractError,
                >(error),
            },
    {
        match self.format {
            Some(format) => Ok(InputPart { format, data_regions: self.data_regions }),
            None => Err(ExtractError::MissingFormat),
        }
    }
}

/// What the file with these bytes says of itself.
pub fn parse_input_part(file: &[u8]) -> (result: Result<InputPart, ExtractError>)
    ensures
        match result {
            Ok(part) => parsed(file@) == Ok::<PartView, ExtractError>(part@),
            Err(error) => parsed(file@) == Err::<PartView, ExtractError>(error),
        },
{
    let len: usize = file.len();
    let mut scan = match ChunkScan::begin(file, len as u64) {
        Ok(scan) => scan,
        Err(error) => return Err(error),
    };
    proof {
        law_walk_starts_file(file@);
    }
    loop
        invariant
            len == file@.len(),
            scan@.file_len == len,
            scan@.outcome(file@) == parsed(file@),
            scan@.pending_format is Some ==> scan@.position + scan@.pending_format->Some_0
                <= file@.len(),
        decreases bytes_left(file@.len() as int, scan@.position as int),
    {
        match scan.request() {
            ScanRequest::Header { offset } => {
                let header = vstd::slice::slice_subrange(
                    file,
                    offset as usize,
                    (offset + CHUNK_HEADER_LEN) as usize,
                );
                proof {
                    law_header_keeps_outcome(scan@, offset, file@);
                }
                match scan.take_header(header) {
                    Ok(()) => {},
                    Err(error) => return Err(error),
                }
            },
            ScanRequest::Format { offset, len } => {
                let payload = vstd::slice::slice_subrange(
                    file,
                    offset as usize,
                    (offset + len as u64) as usize,
                );
                proof {
                    law_format_keeps_outcome(scan@, offset, len, file@);
                }
                match scan.take_format(payload) {
                    Ok(()) => {},
                    Err(error) => return Err(error),
                }
            },
            ScanRequest::Nothing => {
                proof {
                    law_finish_gives_outcome(scan@, file@);
                }
                return scan.finish();
            },
        }
    }
}

/// A walk and a part are seen as they stand.
pub proof fn law_walks_as_they_stand(scan: ChunkScan, part: InputPart)
    ensures
        scan@.file_len == scan.file_len,
        scan@.position == scan.position,
        scan@.pending_format == scan.pending_format,
        scan@.stopped == scan.stopped,
        scan@.format == scan.format,
        scan@.data_regions == scan.data_regions@,
        part@.format == part.format,
        part@.data_regions == part.data_regions@,
{
}

} // verus!

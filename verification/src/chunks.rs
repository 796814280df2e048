//! What is read of a WAV file that is put together from chunks.
use vstd::prelude::*;

use crate::error::ExtractError;
use crate::format::WavFormat;
use crate::parse::{DataRegion, PartView};

verus! {

/// A chunk of a WAV file.
pub struct Chunk {
    pub name: Seq<u8>,
    pub payload: Seq<u8>,
    pub padding: Seq<u8>,
}

impl Chunk {
    /// Whether the chunk is named `fmt `.
    pub open spec fn is_format(self) -> bool {
        self.name == seq![0x66u8, 0x6d, 0x74, 0x20]
    }

    /// Whether the chunk is named `data`.
    pub open spec fn is_data(self) -> bool {
        self.name == seq![0x64u8, 0x61, 0x74, 0x61]
    }

    /// The name has four bytes, the payload can be counted in four bytes and is padded to an even
    /// count, and that of a `fmt ` chunk has room for a format.
    pub open spec fn well_formed(self) -> bool {
        &&& self.name.len() == 4
        &&& self.payload.len() <= u32::MAX
        &&& self.padding.len() == self.payload.len() % 2
        &&& self.is_format() ==> self.payload.len() >= 16
    }

    /// The bytes of the chunk in its file.
    pub open spec fn bytes(self) -> Seq<u8> {
        self.name + crate::bytes::le32(self.payload.len() as u32) + self.payload + self.padding
    }
}

/// The bytes of chunks that follow each other.
pub open spec fn chunks_bytes(chunks: Seq<Chunk>) -> Seq<u8>
    decreases chunks.len(),
{
    if chunks.len() == 0 {
        Seq::empty()
    } else {
        chunks_bytes(chunks.drop_last()) + chunks.last().bytes()
    }
}

/// How many of the chunks are named `data`.
pub open spec fn data_count(chunks: Seq<Chunk>) -> nat
    decreases chunks.len(),
{
    if chunks.len() == 0 {
        0
    } else {
        data_count(chunks.drop_last()) + if chunks.last().is_data() {
            1nat
        } else {
            0
        }
    }
}

/// Whether `start` is how a WAV file starts: `RIFF`, four bytes, and `WAVE`.
pub open spec fn starts_wav(start: Seq<u8>) -> bool {
    &&& start.len() == 12
    &&& start.subrange(0, 4) == seq![0x52u8, 0x49, 0x46, 0x46]
    &&& start.subrange(8, 12) == seq![0x57u8, 0x41, 0x56, 0x45]
}

/// Whether all chunks are well-formed.
pub open spec fn all_well_formed(chunks: Seq<Chunk>) -> bool {
    forall|k: int| #![trigger chunks[k]] 0 <= k < chunks.len() ==> chunks[k].well_formed()
}

/// Whether the chunk at `k` is the last that is named `fmt `.
pub open spec fn last_format_at(chunks: Seq<Chunk>, k: int) -> bool {
    &&& 0 <= k < chunks.len()
    &&& chunks[k].is_format()
    &&& forall|j: int| #![trigger chunks[j]] k < j < chunks.len() ==> !chunks[j].is_format()
}

/// Whether the fields of `format` stand in `payload`: two bytes of encoding, two of channels, four
/// of sample rate, and behind four more bytes two of block align and two of bits.
pub open spec fn format_stands_in(format: WavFormat, payload: Seq<u8>) -> bool {
    &&& format.audio_format == payload[0] + 0x100 * payload[1]
    &&& format.channels == payload[2] + 0x100 * payload[3]
    &&& format.sample_rate == payload[4] + 0x100 * payload[5] + 0x1_0000 * payload[6] + 0x100_0000
        * payload[7]
    &&& format.block_align == payload[12] + 0x100 * payload[13]
    &&& format.bits_per_sample == payload[14] + 0x100 * payload[15]
}

/// Whether `format` is what the last `fmt ` chunk holds, or nothing where there is none.
pub open spec fn declares(chunks: Seq<Chunk>, format: Option<WavFormat>) -> bool {
    match format {
        Some(format) => exists|k: int|
            last_format_at(chunks, k) && format_stands_in(format, #[trigger] chunks[k].payload),
        None => forall|k: int|
            #![trigger chunks[k]]
            0 <= k < chunks.len() ==> !chunks[k].is_format(),
    }
}

/// Whether `regions` are the payloads of the `data` chunks, in their order, in a file where the
/// chunks follow twelve bytes.
pub open spec fn locates(chunks: Seq<Chunk>, regions: Seq<DataRegion>) -> bool {
    &&& regions.len() == data_count(chunks)
    &&& forall|k: int|
        #![trigger chunks[k]]
        0 <= k < chunks.len() && chunks[k].is_data() ==> {
            let region = regions[data_count(chunks.take(k)) as int];
            &&& region.offset == 12 + chunks_bytes(chunks.take(k)).len() + 8
            &&& region.len == chunks[k].payload.len()
        }
}

/// Whether `result` is what the chunks say: the format of the last `fmt ` chunk and the payloads of
/// the `data` chunks, or that there is no `fmt ` chunk.
pub open spec fn says(chunks: Seq<Chunk>, result: Result<PartView, ExtractError>) -> bool {
    match result {
        Ok(part) => declares(chunks, Some(part.format)) && locates(chunks, part.data_regions),
        Err(error) => declares(chunks, None) && error == ExtractError::MissingFormat,
    }
}

/// The format that the chunks declare.
spec fn format_after(chunks: Seq<Chunk>) -> Option<WavFormat>
    decreases chunks.len(),
{
    if chunks.len() == 0 {
        None
    } else if chunks.last().is_format() {
        Some(crate::parse::declared_format(chunks.last().payload))
    } else {
        format_after(chunks.drop_last())
    }
}

/// The data regions that the chunks hold.
spec fn regions_after(chunks: Seq<Chunk>) -> Seq<DataRegion>
    decreases chunks.len(),
{
    if chunks.len() == 0 {
        Seq::empty()
    } else if chunks.last().is_data() {
        regions_after(chunks.drop_last()).push(
            DataRegion {
                offset: (12 + chunks_bytes(chunks.drop_last()).len() + 8) as u64,
                len: chunks.last().payload.len() as u64,
            },
        )
    } else {
        regions_after(chunks.drop_last())
    }
}

/// The name and the size of the chunk whose bytes stand at `pos`.
proof fn lemma_header_at(file: Seq<u8>, pos: int, name: Seq<u8>, size: u32)
    requires
        0 <= pos,
        pos + 8 <= file.len(),
        name.len() == 4,
        file.subrange(pos, pos + 8) == name + crate::bytes::le32(size),
    ensures
        file.subrange(pos, pos + 4) == name,
        crate::bytes::le32_at(file, pos + 4) == size,
        crate::parse::tag_at(file, pos, crate::parse::fmt_tag()) <==> name == seq![
            0x66u8,
            0x6d,
            0x74,
            0x20,
        ],
        crate::parse::tag_at(file, pos, crate::parse::data_tag()) <==> name == seq![
            0x64u8,
            0x61,
            0x74,
            0x61,
        ],
{
    let header = file.subrange(pos, pos + 8);
    assert(file.subrange(pos, pos + 4) =~= header.subrange(0, 4));
    assert(header.subrange(0, 4) =~= name);
    assert(file.subrange(pos + 4, pos + 8) =~= header.subrange(4, 8));
    assert(header.subrange(4, 8) =~= crate::bytes::le32(size));
    crate::bytes::lemma_le32_round_trip(file, pos + 4, size);
}

/// `fmt ` and `data` are not the same name.
proof fn lemma_names_differ(name: Seq<u8>)
    ensures
        !(name == seq![0x66u8, 0x6d, 0x74, 0x20] && name == seq![0x64u8, 0x61, 0x74, 0x61]),
{
    assert(seq![0x66u8, 0x6d, 0x74, 0x20][0] != seq![0x64u8, 0x61, 0x74, 0x61][0]);
}

/// Reading goes on behind a chunk that is read.
#[verifier::spinoff_prover]
proof fn lemma_chunk_is_read(
    file: Seq<u8>,
    pos: int,
    chunk: Chunk,
    format: Option<WavFormat>,
    regions: Seq<DataRegion>,
)
    requires
        file.len() <= u64::MAX,
        0 <= pos,
        pos + chunk.bytes().len() <= file.len(),
        file.subrange(pos, pos + chunk.bytes().len()) == chunk.bytes(),
        chunk.well_formed(),
    ensures
        crate::parse::chunks_from(file, pos, format, regions) == crate::parse::chunks_from(
            file,
            pos + chunk.bytes().len(),
            if chunk.is_format() {
                Some(crate::parse::declared_format(chunk.payload))
            } else {
                format
            },
            if chunk.is_data() {
                regions.push(
                    DataRegion { offset: (pos + 8) as u64, len: chunk.payload.len() as u64 },
                )
            } else {
                regions
            },
        ),
{
    let bytes = chunk.bytes();
    let size = chunk.payload.len() as u32;
    assert(crate::bytes::le32(size).len() == 4);
    assert(file.subrange(pos, pos + 8) =~= bytes.subrange(0, 8));
    assert(bytes.subrange(0, 8) =~= chunk.name + crate::bytes::le32(size));
    lemma_header_at(file, pos, chunk.name, size);
    lemma_names_differ(chunk.name);
    assert(file.subrange(pos + 8, pos + 8 + size) =~= bytes.subrange(8, 8 + size));
    assert(bytes.subrange(8, 8 + size) =~= chunk.payload);
    assert(crate::parse::next_chunk(pos + 8, size) == pos + bytes.len());
}

/// Reading a file comes to the end of its chunks.
#[verifier::spinoff_prover]
proof fn lemma_chunks_are_read(file: Seq<u8>, chunks: Seq<Chunk>)
    requires
        file.len() <= u64::MAX,
        12 + chunks_bytes(chunks).len() <= file.len(),
        file.subrange(12, 12int + chunks_bytes(chunks).len()) == chunks_bytes(chunks),
        all_well_formed(chunks),
    ensures
        crate::parse::chunks_from(file, 12, None, Seq::empty()) == crate::parse::chunks_from(
            file,
            12int + chunks_bytes(chunks).len(),
            format_after(chunks),
            regions_after(chunks),
        ),
    decreases chunks.len(),
{
    if chunks.len() > 0 {
        let rest = chunks.drop_last();
        let last = chunks.last();
        let all = chunks_bytes(chunks);
        let n = chunks_bytes(rest).len() as int;
        assert(chunks[chunks.len() - 1] == last);
        assert forall|k: int| #![trigger rest[k]] 0 <= k < rest.len() implies rest[k]
            .well_formed() by {
            assert(rest[k] == chunks[k]);
        }
        assert(file.subrange(12, 12 + n) =~= all.subrange(0, n));
        assert(all.subrange(0, n) =~= chunks_bytes(rest));
        lemma_chunks_are_read(file, rest);
        assert(file.subrange(12 + n, 12 + n + last.bytes().len()) =~= all.subrange(
            n,
            n + last.bytes().len(),
        ));
        assert(all.subrange(n, n + last.bytes().len()) =~= last.bytes());
        lemma_chunk_is_read(file, 12 + n, last, format_after(rest), regions_after(rest));
        lemma_names_differ(last.name);
    }
}

/// The format that the chunks declare stands in the last `fmt ` chunk.
proof fn lemma_format_after(chunks: Seq<Chunk>)
    ensures
        declares(chunks, format_after(chunks)),
    decreases chunks.len(),
{
    if chunks.len() > 0 {
        let rest = chunks.drop_last();
        let n = chunks.len() - 1;
        lemma_format_after(rest);
        assert(chunks[n] == chunks.last());
        if chunks.last().is_format() {
            let format = format_after(chunks)->Some_0;
            let payload = chunks[n].payload;
            crate::bytes::law_read_little_endian(payload, 0);
            crate::bytes::law_read_little_endian(payload, 2);
            crate::bytes::law_read_little_endian(payload, 4);
            crate::bytes::law_read_little_endian(payload, 12);
            crate::bytes::law_read_little_endian(payload, 14);
            assert(last_format_at(chunks, n) && format_stands_in(format, chunks[n].payload));
        } else if let Some(format) = format_after(rest) {
            let k = choose|k: int|
                last_format_at(rest, k) && format_stands_in(format, #[trigger] rest[k].payload);
            assert(rest[k] == chunks[k]);
            assert forall|j: int| #![trigger chunks[j]] k < j < chunks.len() implies !chunks[j]
                .is_format() by {
                if j < n {
                    assert(rest[j] == chunks[j]);
                }
            }
            assert(last_format_at(chunks, k) && format_stands_in(format, chunks[k].payload));
        } else {
            assert forall|k: int| #![trigger chunks[k]] 0 <= k < chunks.len() implies !chunks[k]
                .is_format() by {
                if k < n {
                    assert(rest[k] == chunks[k]);
                }
            }
        }
    }
}

/// Earlier chunks have no more bytes and no more data.
proof fn lemma_take_chunks(chunks: Seq<Chunk>, k: int)
    requires
        0 <= k <= chunks.len(),
    ensures
        chunks_bytes(chunks.take(k)).len() <= chunks_bytes(chunks).len(),
        data_count(chunks.take(k)) <= data_count(chunks),
        k < chunks.len() && chunks[k].is_data() ==> data_count(chunks.take(k)) < data_count(chunks),
    decreases chunks.len(),
{
    if k < chunks.len() {
        let rest = chunks.drop_last();
        lemma_take_chunks(rest, k);
        assert(rest.take(k) =~= chunks.take(k));
        if k < rest.len() {
            assert(rest[k] == chunks[k]);
        }
    } else {
        assert(chunks.take(k) =~= chunks);
    }
}

/// The regions of the chunks are the payloads of the `data` chunks.
proof fn lemma_regions_after(chunks: Seq<Chunk>)
    requires
        12 + chunks_bytes(chunks).len() + 8 <= u64::MAX,
        all_well_formed(chunks),
    ensures
        locates(chunks, regions_after(chunks)),
    decreases chunks.len(),
{
    if chunks.len() > 0 {
        let rest = chunks.drop_last();
        let n = chunks.len() - 1;
        let regions = regions_after(chunks);
        assert(chunks[n] == chunks.last());
        assert forall|k: int| #![trigger rest[k]] 0 <= k < rest.len() implies rest[k]
            .well_formed() by {
            assert(rest[k] == chunks[k]);
        }
        lemma_regions_after(rest);
        assert forall|k: int|
            #![trigger chunks[k]]
            0 <= k < chunks.len() && chunks[k].is_data() implies {
            let region = regions[data_count(chunks.take(k)) as int];
            &&& region.offset == 12 + chunks_bytes(chunks.take(k)).len() + 8
            &&& region.len == chunks[k].payload.len()
        } by {
            if k < n {
                assert(rest[k] == chunks[k]);
                assert(rest.take(k) =~= chunks.take(k));
                lemma_take_chunks(rest, k);
            } else {
                assert(chunks.take(k) =~= rest);
            }
        }
    }
}

/// A file that starts as a WAV file does is read from its first chunk on.
proof fn lemma_start_is_read(file: Seq<u8>, start: Seq<u8>, rest: Seq<u8>)
    requires
        starts_wav(start),
        file == start + rest,
    ensures
        crate::parse::parsed(file) == crate::parse::chunks_from(file, 12, None, Seq::empty()),
{
    assert(file.subrange(0, 4) =~= start.subrange(0, 4));
    assert(file.subrange(8, 12) =~= start.subrange(8, 12));
}

/// What is read of a file up to the end of its whole chunks.
#[verifier::spinoff_prover]
proof fn lemma_file_is_read(start: Seq<u8>, chunks: Seq<Chunk>, tail: Seq<u8>)
    requires
        starts_wav(start),
        all_well_formed(chunks),
        (start + chunks_bytes(chunks) + tail).len() + 8 <= u64::MAX,
    ensures
        ({
            let file = start + chunks_bytes(chunks) + tail;
            &&& crate::parse::parsed(file) == crate::parse::chunks_from(
                file,
                12int + chunks_bytes(chunks).len(),
                format_after(chunks),
                regions_after(chunks),
            )
            &&& declares(chunks, format_after(chunks))
            &&& locates(chunks, regions_after(chunks))
        }),
{
    let file = start + chunks_bytes(chunks) + tail;
    assert(file =~= start + (chunks_bytes(chunks) + tail));
    lemma_start_is_read(file, start, chunks_bytes(chunks) + tail);
    assert(file.subrange(12, 12int + chunks_bytes(chunks).len()) =~= chunks_bytes(chunks));
    lemma_chunks_are_read(file, chunks);
    lemma_format_after(chunks);
    lemma_regions_after(chunks);
}

/// A file is refused for its start exactly where that is cut off, is not `RIFF`, or is not of the
/// form `WAVE`.
pub proof fn law_starts_of_files(file: Seq<u8>)
    ensures
        file.len() < 12 <==> crate::parse::parsed(file) == Err::<PartView, ExtractError>(
            ExtractError::TruncatedHeader,
        ),
        file.len() >= 12 && file.subrange(0, 4) != seq![0x52u8, 0x49, 0x46, 0x46]
            <==> crate::parse::parsed(file) == Err::<PartView, ExtractError>(ExtractError::NotRiff),
        file.len() >= 12 && file.subrange(0, 4) == seq![0x52u8, 0x49, 0x46, 0x46] && file.subrange(
            8,
            12,
        ) != seq![0x57u8, 0x41, 0x56, 0x45] <==> crate::parse::parsed(file) == Err::<
            PartView,
            ExtractError,
        >(ExtractError::NotWave),
{
    if file.len() >= 12 {
        lemma_chunk_errors(file, 12, None, Seq::empty());
    }
}

/// What chunks are refused for.
proof fn lemma_chunk_errors(
    file: Seq<u8>,
    pos: int,
    format: Option<WavFormat>,
    regions: Seq<DataRegion>,
)
    ensures
        crate::parse::chunks_from(file, pos, format, regions) matches Err(error) ==> error
            == ExtractError::TruncatedFormat || error is InvalidFormatLength || error
            == ExtractError::MissingFormat,
    decreases crate::parse::bytes_left(file.len() as int, pos),
{
    let payload = pos + crate::parse::CHUNK_HEADER_LEN;
    let size = crate::bytes::le32_at(file, pos + 4);
    let next = crate::parse::next_chunk(payload, size);
    let available = file.len() - payload;
    if payload <= file.len() {
        if crate::parse::tag_at(file, pos, crate::parse::fmt_tag()) {
            if size <= available && size >= crate::parse::MIN_FORMAT_LEN {
                let declared = crate::parse::declared_format(
                    file.subrange(payload, payload + size),
                );
                lemma_chunk_errors(file, next, Some(declared), regions);
            }
        } else if crate::parse::tag_at(file, pos, crate::parse::data_tag()) {
            if size <= available {
                lemma_chunk_errors(
                    file,
                    next,
                    format,
                    regions.push(DataRegion { offset: payload as u64, len: size as u64 }),
                );
            }
        } else {
            lemma_chunk_errors(file, next, format, regions);
        }
    }
}

/// A file of whole chunks, whatever they are called and however many bytes they hold, says what
/// its chunks say. Fewer bytes behind them than a name and a size do not matter.
pub proof fn law_whole_chunks(start: Seq<u8>, chunks: Seq<Chunk>, tail: Seq<u8>)
    requires
        starts_wav(start),
        all_well_formed(chunks),
        tail.len() < 8,
        (start + chunks_bytes(chunks) + tail).len() + 8 <= u64::MAX,
    ensures
        says(chunks, crate::parse::parsed(start + chunks_bytes(chunks) + tail)),
{
    lemma_file_is_read(start, chunks, tail);
}

/// The last `data` chunk counts with the bytes that are there, also where it claims more.
#[verifier::spinoff_prover]
pub proof fn law_last_data_chunk(
    start: Seq<u8>,
    chunks: Seq<Chunk>,
    size: u32,
    samples: Seq<u8>,
)
    requires
        starts_wav(start),
        all_well_formed(chunks),
        samples.len() <= size,
        (start + chunks_bytes(chunks)).len() + 16 + samples.len() <= u64::MAX,
    ensures
        ({
            let tail = seq![0x64u8, 0x61, 0x74, 0x61] + crate::bytes::le32(size) + samples;
            match crate::parse::parsed(start + chunks_bytes(chunks) + tail) {
                Ok(part) => {
                    &&& declares(chunks, Some(part.format))
                    &&& part.data_regions.len() > 0
                    &&& locates(chunks, part.data_regions.drop_last())
                    &&& part.data_regions.last().offset == 12 + chunks_bytes(chunks).len() + 8
                    &&& part.data_regions.last().len == samples.len()
                },
                Err(error) => declares(chunks, None) && error == ExtractError::MissingFormat,
            }
        }),
{
    let name = seq![0x64u8, 0x61, 0x74, 0x61];
    let tail = name + crate::bytes::le32(size) + samples;
    let file = start + chunks_bytes(chunks) + tail;
    let pos = 12 + chunks_bytes(chunks).len() as int;
    lemma_file_is_read(start, chunks, tail);
    assert(file.subrange(pos, pos + 8) =~= name + crate::bytes::le32(size));
    lemma_header_at(file, pos, name, size);
    lemma_names_differ(name);
    let region = DataRegion { offset: (pos + 8) as u64, len: samples.len() as u64 };
    let regions = regions_after(chunks).push(region);
    assert(regions.drop_last() =~= regions_after(chunks));
    if samples.len() == size {
        let next = crate::parse::next_chunk(pos + 8, size);
        assert(crate::parse::chunks_from(file, next, format_after(chunks), regions)
            == crate::parse::finished(format_after(chunks), regions));
    }
}

/// A last chunk of another name does not matter, also where it claims more bytes than are there.
#[verifier::spinoff_prover]
pub proof fn law_last_other_chunk(
    start: Seq<u8>,
    chunks: Seq<Chunk>,
    name: Seq<u8>,
    size: u32,
    payload: Seq<u8>,
)
    requires
        starts_wav(start),
        all_well_formed(chunks),
        name.len() == 4,
        name != seq![0x66u8, 0x6d, 0x74, 0x20],
        name != seq![0x64u8, 0x61, 0x74, 0x61],
        payload.len() <= size,
        (start + chunks_bytes(chunks)).len() + 16 + payload.len() <= u64::MAX,
    ensures
        says(
            chunks,
            crate::parse::parsed(
                start + chunks_bytes(chunks) + (name + crate::bytes::le32(size) + payload),
            ),
        ),
{
    let tail = name + crate::bytes::le32(size) + payload;
    let file = start + chunks_bytes(chunks) + tail;
    let pos = 12 + chunks_bytes(chunks).len() as int;
    lemma_file_is_read(start, chunks, tail);
    assert(file.subrange(pos, pos + 8) =~= name + crate::bytes::le32(size));
    lemma_header_at(file, pos, name, size);
    let next = crate::parse::next_chunk(pos + 8, size);
    assert(crate::parse::chunks_from(file, next, format_after(chunks), regions_after(chunks))
        == crate::parse::finished(format_after(chunks), regions_after(chunks)));
}

/// A `fmt ` chunk at the end of the file counts, also without padding.
#[verifier::spinoff_prover]
pub proof fn law_last_format_chunk(start: Seq<u8>, chunks: Seq<Chunk>, payload: Seq<u8>)
    requires
        starts_wav(start),
        all_well_formed(chunks),
        16 <= payload.len() <= u32::MAX,
        (start + chunks_bytes(chunks)).len() + 16 + payload.len() <= u64::MAX,
    ensures
        ({
            let tail = seq![0x66u8, 0x6d, 0x74, 0x20] + crate::bytes::le32(payload.len() as u32)
                + payload;
            crate::parse::parsed(start + chunks_bytes(chunks) + tail) matches Ok(part)
                && format_stands_in(part.format, payload) && locates(chunks, part.data_regions)
        }),
{
    let name = seq![0x66u8, 0x6d, 0x74, 0x20];
    let size = payload.len() as u32;
    let tail = name + crate::bytes::le32(size) + payload;
    let file = start + chunks_bytes(chunks) + tail;
    let pos = 12 + chunks_bytes(chunks).len() as int;
    lemma_file_is_read(start, chunks, tail);
    assert(file.subrange(pos, pos + 8) =~= name + crate::bytes::le32(size));
    lemma_header_at(file, pos, name, size);
    assert(file.subrange(pos + 8, pos + 8 + size) =~= payload);
    let format = crate::parse::declared_format(payload);
    crate::bytes::law_read_little_endian(payload, 0);
    crate::bytes::law_read_little_endian(payload, 2);
    crate::bytes::law_read_little_endian(payload, 4);
    crate::bytes::law_read_little_endian(payload, 12);
    crate::bytes::law_read_little_endian(payload, 14);
    let next = crate::parse::next_chunk(pos + 8, size);
    assert(crate::parse::chunks_from(file, next, Some(format), regions_after(chunks))
        == crate::parse::finished(Some(format), regions_after(chunks)));
}

/// A file that ends within a `fmt ` chunk is refused for that.
#[verifier::spinoff_prover]
pub proof fn law_cut_format(start: Seq<u8>, chunks: Seq<Chunk>, size: u32, payload: Seq<u8>)
    requires
        starts_wav(start),
        all_well_formed(chunks),
        payload.len() < size,
        (start + chunks_bytes(chunks)).len() + 16 + payload.len() <= u64::MAX,
    ensures
        crate::parse::parsed(
            start + chunks_bytes(chunks) + (seq![0x66u8, 0x6d, 0x74, 0x20] + crate::bytes::le32(
                size,
            ) + payload),
        ) == Err::<PartView, ExtractError>(ExtractError::TruncatedFormat),
{
    let name = seq![0x66u8, 0x6d, 0x74, 0x20];
    let tail = name + crate::bytes::le32(size) + payload;
    let file = start + chunks_bytes(chunks) + tail;
    let pos = 12 + chunks_bytes(chunks).len() as int;
    lemma_file_is_read(start, chunks, tail);
    assert(file.subrange(pos, pos + 8) =~= name + crate::bytes::le32(size));
    lemma_header_at(file, pos, name, size);
}

/// A `fmt ` chunk of fewer than 16 bytes is refused with their count, whatever follows it.
#[verifier::spinoff_prover]
pub proof fn law_short_format(
    start: Seq<u8>,
    chunks: Seq<Chunk>,
    payload: Seq<u8>,
    rest: Seq<u8>,
)
    requires
        starts_wav(start),
        all_well_formed(chunks),
        payload.len() < 16,
        (start + chunks_bytes(chunks)).len() + 16 + payload.len() + rest.len() <= u64::MAX,
    ensures
        crate::parse::parsed(
            start + chunks_bytes(chunks) + (seq![0x66u8, 0x6d, 0x74, 0x20] + crate::bytes::le32(
                payload.len() as u32,
            ) + payload + rest),
        ) == Err::<PartView, ExtractError>(ExtractError::InvalidFormatLength(payload.len() as u32)),
{
    let name = seq![0x66u8, 0x6d, 0x74, 0x20];
    let size = payload.len() as u32;
    let tail = name + crate::bytes::le32(size) + payload + rest;
    let file = start + chunks_bytes(chunks) + tail;
    let pos = 12 + chunks_bytes(chunks).len() as int;
    lemma_file_is_read(start, chunks, tail);
    assert(file.subrange(pos, pos + 8) =~= name + crate::bytes::le32(size));
    lemma_header_at(file, pos, name, size);
}

/// A file of a `fmt ` chunk and a `data` chunk, with any chunk between them, declares that format
/// and has the samples as its one data region. Each chunk is followed by the next one behind its
/// payload, padded to an even count, however long that is.
pub proof fn law_format_then_data(start: Seq<u8>, format: Chunk, between: Chunk, data: Chunk)
    requires
        starts_wav(start),
        format.well_formed() && format.is_format(),
        between.well_formed() && !between.is_format() && !between.is_data(),
        data.well_formed() && data.is_data(),
    ensures
        ({
            let file = start + format.bytes() + between.bytes() + data.bytes();
            let n = format.payload.len();
            let m = between.payload.len();
            &&& crate::parse::parsed(file) is Ok
            &&& format_stands_in(crate::parse::parsed(file)->Ok_0.format, format.payload)
            &&& crate::parse::parsed(file)->Ok_0.data_regions == seq![
                DataRegion {
                    offset: (12 + 8 + n + n % 2 + 8 + m + m % 2 + 8) as u64,
                    len: data.payload.len() as u64,
                },
            ]
        }),
{
    let chunks = seq![format, between, data];
    let file = start + format.bytes() + between.bytes() + data.bytes();
    reveal_with_fuel(chunks_bytes, 4);
    reveal_with_fuel(data_count, 4);
    lemma_names_differ(format.name);
    lemma_names_differ(data.name);
    assert(chunks.drop_last() =~= seq![format, between]);
    assert(chunks.drop_last().drop_last() =~= seq![format]);
    assert(chunks.drop_last().drop_last().drop_last() =~= Seq::empty());
    assert(chunks.take(2) =~= chunks.drop_last());
    assert(chunks_bytes(chunks) =~= format.bytes() + between.bytes() + data.bytes());
    assert(file =~= start + chunks_bytes(chunks) + Seq::empty());
    law_whole_chunks(start, chunks, Seq::empty());
    assert(chunks[0] == format && chunks[1] == between && chunks[2] == data);
    assert(data_count(chunks) == 1 && data_count(chunks.take(2)) == 0);
    assert(crate::bytes::le32(format.payload.len() as u32).len() == 4);
    assert(crate::parse::parsed(file) is Ok);
    let part = crate::parse::parsed(file)->Ok_0;
    let k = choose|k: int|
        last_format_at(chunks, k) && format_stands_in(part.format, #[trigger] chunks[k].payload);
    assert(k == 0);
    assert(part.data_regions =~= seq![part.data_regions[0]]);
}

} // verus!

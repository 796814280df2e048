use wing_extract::bytes::{push_le16, push_le32};
use wing_extract::error::ExtractError;
use wing_extract::format::{bytes_per_sample, check_format, WavFormat};
use wing_extract::header::write_wav_header;
use wing_extract::parse::{parse_input_part, ChunkScan, DataRegion, ScanRequest};
use wing_extract::survey::{Plan, Survey};

fn format(channels: u16, bits: u16, block_align: u16) -> WavFormat {
    WavFormat {
        audio_format: 1,
        channels,
        sample_rate: 48000,
        bits_per_sample: bits,
        block_align,
    }
}

fn riff() -> Vec<u8> {
    let mut file = b"RIFF".to_vec();
    push_le32(&mut file, 0);
    file.extend_from_slice(b"WAVE");
    file
}

fn chunk(file: &mut Vec<u8>, name: &[u8], size: u32, payload: &[u8]) {
    file.extend_from_slice(name);
    push_le32(file, size);
    file.extend_from_slice(payload);
}

fn fmt_payload(f: &WavFormat) -> Vec<u8> {
    let mut payload = Vec::new();
    push_le16(&mut payload, f.audio_format);
    push_le16(&mut payload, f.channels);
    push_le32(&mut payload, f.sample_rate);
    push_le32(&mut payload, 0);
    push_le16(&mut payload, f.block_align);
    push_le16(&mut payload, f.bits_per_sample);
    payload
}

fn error_of(file: &[u8]) -> ExtractError {
    match parse_input_part(file) {
        Ok(_) => panic!("accepted"),
        Err(error) => error,
    }
}

#[test]
fn little_endian_integers() {
    let mut out = Vec::new();
    push_le16(&mut out, 0x1234);
    push_le32(&mut out, 0x89abcdef);
    assert_eq!(out, [0x34, 0x12, 0xef, 0xcd, 0xab, 0x89]);
}

#[test]
fn bytes_of_samples() {
    assert_eq!(bytes_per_sample(0), 0);
    assert_eq!(bytes_per_sample(1), 1);
    assert_eq!(bytes_per_sample(8), 1);
    assert_eq!(bytes_per_sample(9), 2);
    assert_eq!(bytes_per_sample(24), 3);
    assert_eq!(bytes_per_sample(32), 4);
    assert_eq!(bytes_per_sample(65535), 8192);
}

#[test]
fn header_bytes() {
    let mut header = vec![7u8];
    assert_eq!(write_wav_header(&mut header, 1, 1, 48000, 24, 6), Ok(()));
    let expected: Vec<u8> = vec![
        7, b'R', b'I', b'F', b'F', 42, 0, 0, 0, b'W', b'A', b'V', b'E', b'f', b'm', b't', b' ',
        16, 0, 0, 0, 1, 0, 1, 0, 0x80, 0xbb, 0, 0, 0x80, 0x32, 2, 0, 3, 0, 24, 0, b'd', b'a',
        b't', b'a', 6, 0, 0, 0,
    ];
    assert_eq!(header, expected);
}

#[test]
fn header_faults() {
    let mut header = Vec::new();
    assert_eq!(
        write_wav_header(&mut header, 1, 1, u32::MAX, 16, 0),
        Err(ExtractError::ByteRateOverflow)
    );
    assert_eq!(
        write_wav_header(&mut header, 1, 1, 48000, 16, u32::MAX - 35),
        Err(ExtractError::RiffSizeOverflow)
    );
    assert!(header.is_empty());
    assert_eq!(write_wav_header(&mut header, 3, 1, 48000, 16, u32::MAX - 36), Ok(()));
    assert_eq!(header.len(), 44);
}

#[test]
fn header_reads_back() {
    let mut file = Vec::new();
    assert_eq!(write_wav_header(&mut file, 3, 2, 44100, 32, 16), Ok(()));
    file.extend_from_slice(&[9; 16]);
    let part = parse_input_part(&file).unwrap();
    assert_eq!(
        part.format,
        WavFormat {
            audio_format: 3,
            channels: 2,
            sample_rate: 44100,
            bits_per_sample: 32,
            block_align: 8,
        }
    );
    assert_eq!(part.data_regions, vec![DataRegion { offset: 44, len: 16 }]);
}

#[test]
fn odd_data_reads_back() {
    let mut file = Vec::new();
    assert_eq!(write_wav_header(&mut file, 1, 1, 44100, 8, 3), Ok(()));
    file.extend_from_slice(&[1, 2, 3]);
    let part = parse_input_part(&file).unwrap();
    assert_eq!(part.data_regions, vec![DataRegion { offset: 44, len: 3 }]);
}

#[test]
fn chunks_are_padded_and_skipped() {
    let f = format(2, 16, 4);
    let mut file = riff();
    chunk(&mut file, b"LIST", 3, &[1, 2, 3, 0]);
    chunk(&mut file, b"fmt ", 16, &fmt_payload(&f));
    chunk(&mut file, b"data", 5, &[1, 2, 3, 4, 5, 0]);
    chunk(&mut file, b"junk", 2, &[0, 0]);
    chunk(&mut file, b"data", 4, &[6, 7, 8, 9]);
    file.extend_from_slice(b"data");
    let part = parse_input_part(&file).unwrap();
    assert_eq!(part.format, f);
    assert_eq!(
        part.data_regions,
        vec![DataRegion { offset: 56, len: 5 }, DataRegion { offset: 80, len: 4 }]
    );
}

#[test]
fn last_format_counts() {
    let mut file = riff();
    chunk(&mut file, b"fmt ", 16, &fmt_payload(&format(1, 8, 1)));
    let mut longer = fmt_payload(&format(2, 16, 4));
    longer.extend_from_slice(&[0, 0]);
    chunk(&mut file, b"fmt ", 18, &longer);
    let part = parse_input_part(&file).unwrap();
    assert_eq!(part.format, format(2, 16, 4));
    assert!(part.data_regions.is_empty());
}

#[test]
fn data_beyond_the_end_is_cut() {
    let mut file = riff();
    chunk(&mut file, b"fmt ", 16, &fmt_payload(&format(1, 16, 2)));
    chunk(&mut file, b"data", u32::MAX, &[1, 2, 3, 4]);
    let part = parse_input_part(&file).unwrap();
    assert_eq!(part.data_regions, vec![DataRegion { offset: 44, len: 4 }]);
}

#[test]
fn chunk_beyond_the_end_is_the_last() {
    let mut file = riff();
    chunk(&mut file, b"fmt ", 16, &fmt_payload(&format(1, 16, 2)));
    chunk(&mut file, b"junk", u32::MAX, &[1, 2]);
    assert!(parse_input_part(&file).unwrap().data_regions.is_empty());
}

#[test]
fn regions_stand_within_the_file() {
    let mut file = riff();
    chunk(&mut file, b"fmt ", 16, &fmt_payload(&format(1, 16, 2)));
    chunk(&mut file, b"data", 2, &[1, 2]);
    chunk(&mut file, b"data", 100, &[3, 4, 5, 6]);
    let part = parse_input_part(&file).unwrap();
    assert_eq!(part.data_regions.len(), 2);
    let first = part.data_regions[0];
    let second = part.data_regions[1];
    assert!(first.offset + first.len + 8 <= second.offset);
    assert_eq!(second.offset + second.len, file.len() as u64);
    assert_eq!(&file[second.offset as usize - 8..second.offset as usize - 4], b"data");
}

#[test]
fn refused_files() {
    assert_eq!(error_of(b""), ExtractError::TruncatedHeader);
    assert_eq!(error_of(b"RIFF\0\0\0\0WAV"), ExtractError::TruncatedHeader);
    assert_eq!(error_of(b"RIFX\0\0\0\0WAVE"), ExtractError::NotRiff);
    assert_eq!(error_of(b"RIFX\0\0\0\0AVI "), ExtractError::NotRiff);
    assert_eq!(error_of(b"RIFF\0\0\0\0AVI "), ExtractError::NotWave);
    assert_eq!(error_of(&riff()), ExtractError::MissingFormat);

    let mut short = riff();
    chunk(&mut short, b"fmt ", 14, &[0; 14]);
    assert_eq!(error_of(&short), ExtractError::InvalidFormatLength(14));

    let mut cut = riff();
    chunk(&mut cut, b"fmt ", 16, &[0; 15]);
    assert_eq!(error_of(&cut), ExtractError::TruncatedFormat);

    let mut short_and_cut = riff();
    chunk(&mut short_and_cut, b"fmt ", 14, &[0; 13]);
    assert_eq!(error_of(&short_and_cut), ExtractError::TruncatedFormat);
}

#[test]
fn walk_asks_for_headers_and_formats_only() {
    let f = format(2, 16, 4);
    let mut scan = ChunkScan::begin(b"RIFF....WAVE", 1_000_000).unwrap();
    assert_eq!(scan.request(), ScanRequest::Header { offset: 12 });
    let mut header = Vec::new();
    chunk(&mut header, b"fmt ", 16, &[]);
    assert_eq!(scan.take_header(&header), Ok(()));
    assert_eq!(scan.request(), ScanRequest::Format { offset: 20, len: 16 });
    assert_eq!(scan.take_format(&fmt_payload(&f)), Ok(()));
    assert_eq!(scan.request(), ScanRequest::Header { offset: 36 });
    let mut header = Vec::new();
    chunk(&mut header, b"data", 900_001, &[]);
    assert_eq!(scan.take_header(&header), Ok(()));
    assert_eq!(scan.request(), ScanRequest::Header { offset: 900_046 });
    let mut header = Vec::new();
    chunk(&mut header, b"data", 900_000, &[]);
    assert_eq!(scan.take_header(&header), Ok(()));
    assert_eq!(scan.request(), ScanRequest::Nothing);
    let part = scan.finish().unwrap();
    assert_eq!(part.format, f);
    assert_eq!(
        part.data_regions,
        vec![DataRegion { offset: 44, len: 900_001 }, DataRegion { offset: 900_054, len: 99_946 }]
    );
}

#[test]
fn walk_at_the_greatest_offsets() {
    let mut scan = ChunkScan::begin(b"RIFF....WAVE", u64::MAX).unwrap();
    scan.position = u64::MAX - 8;
    assert_eq!(scan.request(), ScanRequest::Header { offset: u64::MAX - 8 });
    let mut header = Vec::new();
    chunk(&mut header, b"junk", 1000, &[]);
    assert_eq!(scan.take_header(&header), Ok(()));
    assert_eq!(scan.request(), ScanRequest::Nothing);
}

#[test]
fn checked_formats() {
    assert_eq!(check_format(&format(32, 24, 96)), Ok(3));
    assert_eq!(check_format(&format(0, 24, 96)), Err(ExtractError::ZeroChannels));
    let mut float = format(2, 32, 8);
    float.audio_format = 3;
    assert_eq!(check_format(&float), Ok(4));
    float.audio_format = 0xfffe;
    assert_eq!(check_format(&float), Err(ExtractError::UnsupportedFormat(0xfffe)));
    assert_eq!(check_format(&format(2, 0, 0)), Err(ExtractError::InvalidBitsPerSample(0)));
    assert_eq!(
        check_format(&format(2, 16, 6)),
        Err(ExtractError::InvalidBlockAlign { block_align: 6, channels: 2, bits_per_sample: 16 })
    );
    assert_eq!(
        check_format(&format(16385, 32, 4)),
        Err(ExtractError::InvalidBlockAlign {
            block_align: 4,
            channels: 16385,
            bits_per_sample: 32,
        })
    );
}

fn part(f: WavFormat, lens: &[u64]) -> wing_extract::parse::InputPart {
    wing_extract::parse::InputPart {
        format: f,
        data_regions: lens.iter().map(|len| DataRegion { offset: 44, len: *len }).collect(),
    }
}

#[test]
fn surveyed_parts() {
    let f = format(2, 16, 4);
    let other = format(2, 8, 4);
    let mut survey = Survey::new();
    assert_eq!(survey.plan(None), Err(ExtractError::NoWavFiles));
    assert_eq!(survey.add_part(part(f, &[])), Err(ExtractError::NoData));
    assert_eq!(survey.add_part(part(f, &[4, 3])), Err(ExtractError::UnalignedData));
    assert_eq!(survey.add_part(part(f, &[6, 2])), Ok(()));
    assert_eq!(survey.add_part(part(f, &[40])), Ok(()));
    assert_eq!(
        survey.add_part(part(other, &[4])),
        Err(ExtractError::FormatMismatch { expected: f, found: other })
    );
    assert_eq!(survey.parts.len(), 2);
    assert_eq!(survey.total_frames, 12);
    assert_eq!(
        survey.plan(None),
        Ok(Plan { format: f, total_frames: 12, frames_to_write: 12 })
    );
    assert_eq!(survey.plan(Some(5)).unwrap().frames_to_write, 5);
    assert_eq!(survey.plan(Some(50)).unwrap().frames_to_write, 12);
}

#[test]
fn frames_that_cannot_be_counted() {
    let f = format(1, 8, 1);
    let mut survey = Survey::new();
    assert_eq!(survey.add_part(part(f, &[u64::MAX])), Ok(()));
    assert_eq!(survey.add_part(part(f, &[1])), Err(ExtractError::FrameCountOverflow));
    assert_eq!(survey.total_frames, u64::MAX);
}

use wing_extract::demux::{demux_parts, Cursor, ReadRequest};
use wing_extract::error::ExtractError;
use wing_extract::format::WavFormat;
use wing_extract::frames::split_frames;
use wing_extract::header::write_wav_header;
use wing_extract::output::{create_output_writers, output_file_name};
use wing_extract::parse::{parse_input_part, DataRegion, InputPart};
use wing_extract::run::{run, Failure, OutputFile};

fn format(channels: u16, bits: u16, block_align: u16) -> WavFormat {
    WavFormat {
        audio_format: 1,
        channels,
        sample_rate: 48000,
        bits_per_sample: bits,
        block_align,
    }
}

fn wav(channels: u16, bits: u16, data: &[u8]) -> Vec<u8> {
    let mut file = Vec::new();
    write_wav_header(&mut file, 1, channels, 48000, bits, data.len() as u32).unwrap();
    file.extend_from_slice(data);
    file
}

fn region(offset: u64, len: u64) -> DataRegion {
    DataRegion { offset, len }
}

fn failure_of(files: Vec<Vec<u8>>) -> Failure {
    let stopped = run(&files, "c", 1, None).unwrap_err();
    assert!(stopped.outputs.is_empty());
    stopped.failure
}

fn contents(outputs: &[OutputFile]) -> Vec<(&str, &[u8])> {
    outputs.iter().map(|output| (output.name.as_str(), output.bytes.as_slice())).collect()
}

/// A recording of two channels with 8 bits whose samples stand in several data chunks.
fn wav_of_chunks(chunks: &[&[u8]]) -> Vec<u8> {
    let mut file = wav(2, 8, &[]);
    file.truncate(36);
    for chunk in chunks {
        file.extend_from_slice(b"data");
        file.extend_from_slice(&(chunk.len() as u32).to_le_bytes());
        file.extend_from_slice(chunk);
        if chunk.len() % 2 == 1 {
            file.push(0);
        }
    }
    file
}

#[test]
fn frames_are_split() {
    let data = [1, 2, 3, 4, 5, 6, 7, 8, 9];
    let mut bufs = vec![vec![99], vec![]];
    split_frames(&data, 2, 4, 2, &mut bufs);
    assert_eq!(bufs, vec![vec![1, 2, 5, 6], vec![3, 4, 7, 8]]);
}

#[test]
fn bytes_behind_the_samples_of_a_frame_are_left_out() {
    let mut bufs = vec![vec![], vec![]];
    split_frames(&[1, 2, 3, 4, 5, 6], 2, 3, 1, &mut bufs);
    assert_eq!(bufs, vec![vec![1, 4], vec![2, 5]]);
}

#[test]
fn splitting_is_lossless() {
    let data: Vec<u8> = (0..60).collect();
    let mut bufs = vec![vec![], vec![], vec![], vec![]];
    split_frames(&data, 4, 12, 3, &mut bufs);
    for frame in 0..5 {
        for channel in 0..4 {
            for b in 0..3 {
                assert_eq!(bufs[channel][frame * 3 + b], data[frame * 12 + channel * 3 + b]);
            }
        }
    }
}

#[test]
fn pieces_of_a_long_region() {
    let parts = vec![InputPart {
        format: format(2, 16, 4),
        data_regions: vec![region(44, 0), region(100, 4 * 5000)],
    }];
    let mut cursor = Cursor::new(4500);
    assert_eq!(
        cursor.next_read(&parts, 4),
        Ok(Some(ReadRequest { part: 0, offset: 100, len: 16384, keep: 16384 }))
    );
    assert_eq!(cursor.frames_remaining, 404);
    assert_eq!(
        cursor.next_read(&parts, 4),
        Ok(Some(ReadRequest { part: 0, offset: 16484, len: 3616, keep: 1616 }))
    );
    assert_eq!(cursor.frames_remaining, 0);
    assert_eq!(cursor.next_read(&parts, 4), Ok(None));
}

#[test]
fn pieces_end_with_the_parts() {
    let part = InputPart { format: format(1, 8, 1), data_regions: vec![region(44, 2)] };
    let empty = InputPart { format: format(1, 8, 1), data_regions: vec![] };
    let parts = vec![empty, part];
    let mut cursor = Cursor::new(10);
    assert_eq!(
        cursor.next_read(&parts, 1),
        Ok(Some(ReadRequest { part: 1, offset: 44, len: 2, keep: 2 }))
    );
    assert_eq!(cursor.next_read(&parts, 1), Ok(None));
    assert_eq!(cursor.frames_remaining, 8);
}

#[test]
fn region_that_ends_within_a_frame() {
    let files = vec![vec![1, 2, 3, 4, 5, 6, 7, 8]];
    let f = format(2, 8, 2);
    let parts = vec![InputPart { format: f, data_regions: vec![region(0, 3), region(4, 3)] }];
    let mut writers = vec![vec![0], vec![]];
    assert_eq!(
        demux_parts(&files, &parts, &mut writers, &f, 1, 3),
        Err(ExtractError::UnalignedChunk(0))
    );
    assert_eq!(writers, vec![vec![0, 1], vec![2]]);

    let mut writers = vec![vec![], vec![]];
    assert_eq!(demux_parts(&files, &parts, &mut writers, &f, 1, 1), Ok(()));
    assert_eq!(writers, vec![vec![1], vec![2]]);
}

#[test]
fn empty_regions_ask_for_nothing() {
    let files = vec![vec![1, 2, 3, 4]];
    let f = format(2, 8, 0);
    let parts = vec![InputPart { format: f, data_regions: vec![region(0, 0), region(4, 0)] }];
    let mut writers = vec![vec![7], vec![]];
    assert_eq!(demux_parts(&files, &parts, &mut writers, &f, 1, 3), Ok(()));
    assert_eq!(writers, vec![vec![7], vec![]]);
}

#[test]
fn samples_need_room_only_where_a_frame_is_read() {
    let files = vec![vec![1, 2, 3, 4]];
    let f = format(2, 16, 3);
    let parts = vec![InputPart { format: f, data_regions: vec![region(0, 2), region(0, 4)] }];
    let mut writers = vec![vec![7], vec![]];
    assert_eq!(
        demux_parts(&files, &parts, &mut writers, &f, 2, 1),
        Err(ExtractError::UnalignedChunk(0))
    );
    assert_eq!(writers, vec![vec![7], vec![]]);
}

#[test]
fn writers_and_channels_need_not_match() {
    let files = vec![vec![1, 2, 3, 4]];
    let f = format(2, 8, 2);
    let parts = vec![InputPart { format: f, data_regions: vec![region(0, 4)] }];
    let mut one = vec![vec![]];
    assert_eq!(demux_parts(&files, &parts, &mut one, &f, 1, 2), Ok(()));
    assert_eq!(one, vec![vec![1, 3]]);
    let mut three = vec![vec![], vec![], vec![7]];
    assert_eq!(demux_parts(&files, &parts, &mut three, &f, 1, 2), Ok(()));
    assert_eq!(three, vec![vec![1, 3], vec![2, 4], vec![7]]);
}

#[test]
fn reading_in_pieces_gives_all_frames() {
    let data: Vec<u8> = (0..2 * 10000).map(|i| (i % 251) as u8).collect();
    let f = format(2, 8, 2);
    let parts =
        vec![InputPart { format: f, data_regions: vec![region(0, data.len() as u64)] }];
    let mut writers = vec![vec![], vec![]];
    let files = vec![data.clone()];
    assert_eq!(demux_parts(&files, &parts, &mut writers, &f, 1, 10000), Ok(()));
    let left: Vec<u8> = data.iter().step_by(2).copied().collect();
    let right: Vec<u8> = data.iter().skip(1).step_by(2).copied().collect();
    assert_eq!(writers, vec![left, right]);
}

#[test]
fn output_names() {
    assert_eq!(output_file_name("Channel", 1), "Channel-1.wav");
    assert_eq!(output_file_name("Channel", 32), "Channel-32.wav");
    assert_eq!(output_file_name("", usize::MAX), format!("-{}.wav", usize::MAX));
}

#[test]
fn output_names_differ() {
    let plan = create_output_writers("a-1", 8, 4, &format(4, 16, 8), 10, 2).unwrap();
    assert_eq!(plan.names, ["a-1-8.wav", "a-1-9.wav", "a-1-10.wav", "a-1-11.wav"]);
}

#[test]
fn output_headers() {
    let plan = create_output_writers("Channel", 1, 2, &format(2, 24, 6), 5, 3).unwrap();
    let mut expected = Vec::new();
    write_wav_header(&mut expected, 1, 1, 48000, 24, 15).unwrap();
    assert_eq!(plan.header, Ok(expected));
    assert_eq!(plan.names.len(), 2);
}

#[test]
fn output_faults() {
    let f = format(2, 16, 4);
    assert_eq!(
        create_output_writers("c", 1, 2, &f, u64::MAX, 2).unwrap_err(),
        ExtractError::OutputSizeOverflow
    );
    assert_eq!(
        create_output_writers("c", 1, 2, &f, 1 << 31, 2).unwrap_err(),
        ExtractError::OutputTooLarge(1 << 32)
    );
    let plan = create_output_writers("c", 1, 2, &f, (1 << 31) - 1, 2).unwrap();
    assert_eq!(plan.header, Err(ExtractError::RiffSizeOverflow));
    let mut fast = f;
    fast.sample_rate = 1 << 31;
    let plan = create_output_writers("c", 1, 2, &fast, 1, 2).unwrap();
    assert_eq!(plan.header, Err(ExtractError::ByteRateOverflow));
    assert_eq!(plan.names, ["c-1.wav"]);
}

#[test]
fn header_fault_shows_before_the_numbers_run_out() {
    let mut fast = format(2, 16, 4);
    fast.sample_rate = 1 << 31;
    let plan = create_output_writers("c", usize::MAX, 2, &fast, 1, 2).unwrap();
    assert_eq!(plan.header, Err(ExtractError::ByteRateOverflow));
    assert_eq!(plan.names, [format!("c-{}.wav", usize::MAX)]);
    let slow = format(2, 16, 4);
    let plan = create_output_writers("c", usize::MAX - 1, 2, &slow, 1, 2).unwrap();
    assert_eq!(
        plan.names,
        [format!("c-{}.wav", usize::MAX - 1), format!("c-{}.wav", usize::MAX)]
    );
}

#[test]
fn recording_is_extracted() {
    let files = vec![wav(2, 16, &[1, 2, 3, 4, 5, 6, 7, 8]), wav(2, 16, &[9, 10, 11, 12])];
    let outputs = run(&files, "Channel", 1, None).unwrap();
    assert_eq!(outputs.len(), 2);
    assert_eq!(outputs[0].name, "Channel-1.wav");
    assert_eq!(outputs[0].bytes, wav(1, 16, &[1, 2, 5, 6, 9, 10]));
    assert_eq!(outputs[1].name, "Channel-2.wav");
    assert_eq!(outputs[1].bytes, wav(1, 16, &[3, 4, 7, 8, 11, 12]));
}

#[test]
fn outputs_are_mono_recordings() {
    let data: Vec<u8> = (0..96).collect();
    let outputs = run(&vec![wav(32, 24, &data)], "Channel", 1, None).unwrap();
    assert_eq!(outputs.len(), 32);
    for (c, output) in outputs.iter().enumerate() {
        let part = parse_input_part(&output.bytes).unwrap();
        assert_eq!(part.format, format(1, 24, 3));
        assert_eq!(part.data_regions, vec![region(44, 3)]);
        assert_eq!(output.bytes[44..], data[3 * c..3 * c + 3]);
    }
}

#[test]
fn segments_join() {
    let data: Vec<u8> = (0..80).collect();
    let whole = run(&vec![wav(2, 16, &data)], "c", 1, None).unwrap();
    let split =
        run(&vec![wav(2, 16, &data[..12]), wav(2, 16, &data[12..])], "c", 1, None).unwrap();
    assert_eq!(whole.len(), split.len());
    for (a, b) in whole.iter().zip(&split) {
        assert_eq!(a.name, b.name);
        assert_eq!(a.bytes, b.bytes);
    }
}

#[test]
fn fewer_frames_are_the_first() {
    let data: Vec<u8> = (0..40).collect();
    let files = vec![wav(2, 16, &data)];
    let all = run(&files, "c", 1, None).unwrap();
    let some = run(&files, "c", 1, Some(3)).unwrap();
    assert_eq!(some[1].bytes.len(), 44 + 6);
    assert_eq!(some[1].bytes[44..], all[1].bytes[44..50]);
    let none = run(&files, "c", 1, Some(0)).unwrap();
    assert_eq!(none[0].bytes, wav(1, 16, &[]));
}

#[test]
fn failures_name_the_file() {
    let good = wav(2, 16, &[1, 2, 3, 4]);
    assert_eq!(
        failure_of(vec![]),
        Failure { file: None, error: ExtractError::NoWavFiles }
    );
    assert_eq!(
        failure_of(vec![good.clone(), b"RIFF".to_vec()]),
        Failure { file: Some(1), error: ExtractError::TruncatedHeader }
    );
    assert_eq!(
        failure_of(vec![wav(2, 16, &[1, 2, 3]), b"RIFF".to_vec()]),
        Failure { file: Some(0), error: ExtractError::UnalignedData }
    );
    assert_eq!(
        failure_of(vec![good.clone(), wav(1, 16, &[1, 2])]),
        Failure {
            file: Some(1),
            error: ExtractError::FormatMismatch {
                expected: format(2, 16, 4),
                found: format(1, 16, 2),
            },
        }
    );
    let mut mulaw = good.clone();
    mulaw[20] = 7;
    assert_eq!(
        failure_of(vec![mulaw]),
        Failure { file: None, error: ExtractError::UnsupportedFormat(7) }
    );
}

#[test]
fn header_fault_leaves_one_empty_file() {
    let mut fast = wav(2, 16, &[1, 2, 3, 4]);
    fast[27] = 0xff;
    let stopped = run(&vec![fast], "c", 5, None).unwrap_err();
    assert_eq!(stopped.failure, Failure { file: None, error: ExtractError::ByteRateOverflow });
    assert_eq!(contents(&stopped.outputs), [("c-5.wav", &[] as &[u8])]);
}

#[test]
fn unaligned_chunk_leaves_the_frames_before_it() {
    let files = vec![wav(2, 8, &[1, 2]), wav_of_chunks(&[&[3, 4, 5], &[6, 7, 8]])];
    let stopped = run(&files, "c", 1, None).unwrap_err();
    assert_eq!(stopped.failure, Failure { file: None, error: ExtractError::UnalignedChunk(1) });
    let mut header = Vec::new();
    write_wav_header(&mut header, 1, 1, 48000, 8, 4).unwrap();
    let left = [header.clone(), vec![1, 3]].concat();
    let right = [header, vec![2, 4]].concat();
    assert_eq!(
        contents(&stopped.outputs),
        [("c-1.wav", left.as_slice()), ("c-2.wav", right.as_slice())]
    );

    let outputs = run(&files, "c", 1, Some(2)).unwrap();
    assert_eq!(outputs[1].bytes, wav(1, 8, &[2, 4]));
}

#[test]
fn cursor_reaches_parts_while_frames_are_wanted() {
    let f = format(2, 8, 2);
    let part = |lens: &[u64]| InputPart {
        format: f,
        data_regions: lens.iter().map(|len| region(44, *len)).collect(),
    };
    let parts = vec![part(&[0]), part(&[4]), part(&[0, 0])];
    let mut none = Cursor::new(0);
    assert_eq!(none.next_read(&parts, 2), Ok(None));
    assert_eq!(none.part, 0);
    let mut two = Cursor::new(2);
    assert_eq!(
        two.next_read(&parts, 2),
        Ok(Some(ReadRequest { part: 1, offset: 44, len: 4, keep: 4 }))
    );
    assert_eq!(two.part, 1);
    assert_eq!(two.next_read(&parts, 2), Ok(None));
    assert_eq!(two.part, 1);
    let mut three = Cursor::new(3);
    assert!(three.next_read(&parts, 2).unwrap().is_some());
    assert_eq!(three.next_read(&parts, 2), Ok(None));
    assert_eq!(three.part, 3);
}

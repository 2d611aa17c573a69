use termplay::annexb::avcc_parameter_sets;
use termplay::boxes::ParseError;
use termplay::demux::{
    DemuxAction, Demultiplexer, RawAudioMessage, RawVideoMessage, AUDIO_BLOCK_BYTES, FRAME_BYTES,
};
use termplay::moov::get_moov_box;
use termplay::sample_map::get_sample_map;

fn create_test_demux() -> Demultiplexer {
    Demultiplexer::new(23)
}

#[test]
fn test_get_bit() {
    let demux = create_test_demux();
    let test_byte = 0b10101010;

    assert_eq!(demux.get_bit(test_byte, 0), 0);
    assert_eq!(demux.get_bit(test_byte, 1), 1);
    assert_eq!(demux.get_bit(test_byte, 2), 0);
    assert_eq!(demux.get_bit(test_byte, 3), 1);
    assert_eq!(demux.get_bit(test_byte, 4), 0);
    assert_eq!(demux.get_bit(test_byte, 5), 1);
    assert_eq!(demux.get_bit(test_byte, 6), 0);
    assert_eq!(demux.get_bit(test_byte, 7), 1);
}

#[test]
fn test_convert_avcc_to_annexb_basic() {
    let demux = create_test_demux();
    let avcc_data = vec![0x00, 0x00, 0x00, 0x04, 0x67, 0x42, 0x00, 0x1F];
    let annexb_data = demux.convert_avcc_to_annexb(&avcc_data);
    let expected = vec![0x00, 0x00, 0x00, 0x01, 0x67, 0x42, 0x00, 0x1F];
    assert_eq!(annexb_data, expected);
}

#[test]
fn test_convert_avcc_to_annexb_multiple_nals() {
    let demux = create_test_demux();
    let avcc_data = vec![
        0x00, 0x00, 0x00, 0x02, 0x67, 0x42, // first NAL
        0x00, 0x00, 0x00, 0x03, 0x68, 0x43, 0x44, // second NAL
    ];
    let annexb_data = demux.convert_avcc_to_annexb(&avcc_data);
    let expected = vec![
        0x00, 0x00, 0x00, 0x01, 0x67, 0x42, 0x00, 0x00, 0x00, 0x01, 0x68, 0x43, 0x44,
    ];
    assert_eq!(annexb_data, expected);
}

#[test]
fn test_convert_avcc_to_annexb_empty_data() {
    let demux = create_test_demux();
    let empty_data = vec![];
    let result = demux.convert_avcc_to_annexb(&empty_data);
    assert!(result.is_empty());
}

#[test]
fn test_convert_avcc_to_annexb_invalid_length() {
    let demux = create_test_demux();
    let invalid_data = vec![0x00, 0x00, 0x00, 0x10, 0x67, 0x42];
    let result = demux.convert_avcc_to_annexb(&invalid_data);
    assert!(result.is_empty());
}

#[test]
fn every_nal_length_size_is_supported() {
    let mut demux = create_test_demux();
    let cases: Vec<(u8, Vec<u8>)> = vec![
        (1, vec![2, 0xAA, 0xBB]),
        (2, vec![0, 2, 0xAA, 0xBB]),
        (3, vec![0, 0, 2, 0xAA, 0xBB]),
        (4, vec![0, 0, 0, 2, 0xAA, 0xBB]),
    ];
    for (size, data) in cases {
        demux.nal_length_size = size;
        assert_eq!(demux.convert_avcc_to_annexb(&data), vec![0, 0, 0, 1, 0xAA, 0xBB]);
    }
}

#[test]
fn annexb_length_is_bodies_plus_start_codes() {
    let demux = create_test_demux();
    let avcc = vec![0, 0, 0, 1, 9, 0, 0, 0, 3, 7, 7, 7, 0, 0, 0, 0];
    let out = demux.convert_avcc_to_annexb(&avcc);
    assert_eq!(out.len(), (1 + 4) + (3 + 4) + (0 + 4));
    assert_eq!(out, vec![0, 0, 0, 1, 9, 0, 0, 0, 1, 7, 7, 7, 0, 0, 0, 1]);
}

/// avcC: NAL lengths of two bytes, one SPS `67 42`, one PPS `68`.
const AVCC: [u8; 14] = [1, 0x42, 0, 0x1F, 0xFD, 0xE1, 0, 2, 0x67, 0x42, 1, 0, 1, 0x68];

fn mp4_box(tag: &[u8; 4], payload: &[u8]) -> Vec<u8> {
    let mut v = ((payload.len() + 8) as u32).to_be_bytes().to_vec();
    v.extend_from_slice(tag);
    v.extend_from_slice(payload);
    v
}

fn words(ws: &[u32]) -> Vec<u8> {
    ws.iter().flat_map(|w| w.to_be_bytes()).collect()
}

/// A track: media header `vmhd` or `smhd`, timescale, sample duration,
/// sample sizes and chunk offsets (one sample per chunk).
fn track(video: bool, timescale: u32, delta: u32, sizes: &[u32], offsets: &[u32]) -> Vec<u8> {
    let mut stsd = words(&[0, 1, 0]);
    if video {
        stsd.extend_from_slice(b"avc1");
        stsd.extend_from_slice(&[0u8; 78]);
        stsd.extend_from_slice(&mp4_box(b"avcC", &AVCC));
    } else {
        stsd.extend_from_slice(b"mp4a");
    }
    let mut stsz = words(&[0, 0, sizes.len() as u32]);
    stsz.extend_from_slice(&words(sizes));
    let mut stco = words(&[0, offsets.len() as u32]);
    stco.extend_from_slice(&words(offsets));
    let mut stbl = mp4_box(b"stsd", &stsd);
    stbl.extend(mp4_box(b"stts", &words(&[0, 1, sizes.len() as u32, delta])));
    stbl.extend(mp4_box(b"stsc", &words(&[0, 1, 1, 1, 1])));
    stbl.extend(mp4_box(b"stsz", &stsz));
    stbl.extend(mp4_box(b"stco", &stco));
    let mut minf = mp4_box(if video { b"vmhd" } else { b"smhd" }, &[0; 8]);
    minf.extend(mp4_box(b"dinf", &[0; 4]));
    minf.extend(mp4_box(b"stbl", &stbl));
    let mut mdhd = words(&[0, 0, 0, timescale, 0]);
    mdhd.extend_from_slice(&[0; 4]);
    let mut mdia = mp4_box(b"mdhd", &mdhd);
    mdia.extend(mp4_box(b"hdlr", &[0; 8]));
    mdia.extend(mp4_box(b"minf", &minf));
    let mut trak = mp4_box(b"tkhd", &[0; 8]);
    trak.extend(mp4_box(b"mdia", &mdia));
    mp4_box(b"trak", &trak)
}

fn movie() -> Vec<u8> {
    let mut moov = mp4_box(b"mvhd", &[0; 8]);
    moov.extend(track(true, 30000, 1000, &[4, 4], &[1000, 3000]));
    moov.extend(track(false, 44100, 1024, &[5], &[2000]));
    let mut stream = mp4_box(b"ftyp", b"isom");
    stream.extend(mp4_box(b"moov", &moov));
    stream.extend_from_slice(&[0, 0, 0, 0]);
    stream.extend_from_slice(b"mdat");
    // video sample: one NAL of two bytes
    stream.extend_from_slice(&[0, 2, 0x65, 0x88]);
    // audio sample
    stream.extend_from_slice(&[1, 2, 3, 4, 5]);
    // video sample whose NAL length runs past the sample: nothing to decode
    stream.extend_from_slice(&[0, 9, 1, 2]);
    stream
}

#[test]
fn sample_map_totals_match_the_size_tables() {
    let stream = movie();
    let moov_size = u32::from_be_bytes([stream[12], stream[13], stream[14], stream[15]]);
    let moov = get_moov_box(moov_size, stream[20..12 + moov_size as usize].to_vec()).unwrap();
    let map = get_sample_map(moov).unwrap();
    let sizes: Vec<(u32, bool)> = map.iter().map(|s| (s.size, s.is_video)).collect();
    assert_eq!(sizes, vec![(4, true), (5, false), (4, true)]);
    assert_eq!(map.iter().map(|s| s.size).sum::<u32>(), 4 + 4 + 5);
}

#[test]
fn demultiplexer_walks_a_whole_stream() {
    let stream = movie();
    let mut demux = Demultiplexer::new(23);
    let mut actions = vec![];
    // feed in small pieces, as a pipe would
    for piece in stream.chunks(7) {
        demux.feed(piece);
        loop {
            let action = demux.next_action();
            if let DemuxAction::NeedMore = action {
                break;
            }
            actions.push(action);
        }
    }
    assert_eq!(actions.len(), 6);
    assert!(matches!(actions[0], DemuxAction::Skip)); // ftyp
    assert!(matches!(actions[1], DemuxAction::FramesPerSecond(30)));
    assert!(matches!(actions[2], DemuxAction::Skip)); // mdat header
    match &actions[3] {
        DemuxAction::VideoPacket(p) => assert_eq!(p, &vec![0, 0, 0, 1, 0x65, 0x88]),
        other => panic!("expected a video packet, got {:?}", other),
    }
    match &actions[4] {
        DemuxAction::AudioPacket(p) => assert_eq!(p, &vec![1, 2, 3, 4, 5]),
        other => panic!("expected an audio packet, got {:?}", other),
    }
    // the empty Annex-B result is skipped, not handed to the decoder
    assert!(matches!(actions[5], DemuxAction::Skip));
    // avcC byte 4 is 0xFD: NAL lengths take two bytes
    assert_eq!(demux.nal_length_size, 2);
    assert_eq!(demux.frame_interval_ms, Some(33));
    assert_eq!(demux.parameter_sets, Some(vec![0, 0, 0, 1, 0x67, 0x42, 0, 0, 0, 1, 0x68]));
}

#[test]
fn parameter_sets_of_avcc_record() {
    assert_eq!(avcc_parameter_sets(&AVCC), Some(vec![0, 0, 0, 1, 0x67, 0x42, 0, 0, 0, 1, 0x68]));
    // the PPS count is missing
    assert_eq!(avcc_parameter_sets(&AVCC[..10]), None);
    // no parameter sets at all
    assert_eq!(avcc_parameter_sets(&[1, 0x42, 0, 0x1F, 0xFF, 0xE0, 0]), Some(vec![]));
}

#[test]
fn unknown_top_level_box_fails() {
    let mut demux = Demultiplexer::new(23);
    demux.feed(&mp4_box(b"free", &[0; 4]));
    match demux.next_action() {
        DemuxAction::Failed(e) => assert_eq!(e, ParseError::UnknownTag(0x66726565)),
        other => panic!("expected a failure, got {:?}", other),
    }
}

#[test]
fn several_stts_entries_are_unsupported() {
    let mut t = track(true, 30000, 1000, &[6], &[100]);
    // turn the single stts entry count into two
    let pos = t.windows(4).position(|w| w == b"stts").unwrap();
    t[pos + 8..pos + 12].copy_from_slice(&2u32.to_be_bytes());
    let mut moov = mp4_box(b"mvhd", &[0; 8]);
    moov.extend(t);
    let mut demux = Demultiplexer::new(23);
    demux.feed(&mp4_box(b"moov", &moov));
    match demux.next_action() {
        DemuxAction::Failed(e) => assert_eq!(e, ParseError::UnsupportedFeature),
        other => panic!("expected a failure, got {:?}", other),
    }
}

#[test]
fn timestamps_advance_per_frame_and_block() {
    let mut demux = Demultiplexer::new(23);
    // no frame rate known yet
    assert!(demux.video_frame_message(vec![0; FRAME_BYTES]).is_none());
    demux.frame_interval_ms = Some(40);
    let mut times = vec![];
    for _ in 0..3 {
        match demux.video_frame_message(vec![0; FRAME_BYTES]) {
            Some(RawVideoMessage::VideoMessage(b)) => {
                assert_eq!(b.data.len(), 640 * 360 * 3);
                times.push(b.timestamp_in_ms)
            }
            _ => panic!("expected a frame"),
        }
    }
    assert_eq!(times, vec![0, 40, 80]);
    // a frame of the wrong size is refused
    assert!(demux.video_frame_message(vec![0; 12]).is_none());
    let mut audio_times = vec![];
    for _ in 0..3 {
        match demux.audio_sample_message(vec![0; AUDIO_BLOCK_BYTES]) {
            Some(RawAudioMessage::AudioMessage(b)) => audio_times.push(b.timestamp_in_ms),
            _ => panic!("expected an audio block"),
        }
    }
    assert_eq!(audio_times, vec![0, 23, 46]);
    assert!(demux.audio_sample_message(vec![0; 5]).is_none());
}

#[test]
fn splitting_annexb_at_start_codes_gives_the_bodies_back() {
    let demux = create_test_demux();
    let bodies: Vec<Vec<u8>> = vec![vec![0x67, 0x42, 0x00], vec![0x68], vec![0x65, 0x00, 0x00, 0x03, 0x01]];
    let mut avcc = vec![];
    for b in &bodies {
        avcc.extend_from_slice(&(b.len() as u32).to_be_bytes());
        avcc.extend_from_slice(b);
    }
    let out = demux.convert_avcc_to_annexb(&avcc);
    assert_eq!(out.len(), bodies.iter().map(|b| b.len() + 4).sum::<usize>());
    let code = [0u8, 0, 0, 1];
    let mut starts = vec![];
    for k in 0..out.len().saturating_sub(3) {
        if out[k..k + 4] == code {
            starts.push(k);
        }
    }
    let mut split = vec![];
    for (i, &s) in starts.iter().enumerate() {
        let end = if i + 1 < starts.len() { starts[i + 1] } else { out.len() };
        split.push(out[s + 4..end].to_vec());
    }
    assert_eq!(split, bodies);
}

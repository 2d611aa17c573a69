use base64::{engine::general_purpose, Engine as _};
use termplay::demux::{BytesWithTimestamp, RawVideoMessage};
use termplay::encoder::{EncodedVideoMessage, Encoder, EncoderError, TerminalSize};

fn terminal() -> TerminalSize {
    TerminalSize { cols: 160, rows: 45, x_pixels: 1280, y_pixels: 720 }
}

#[test]
fn encoder_test_new_encoder() {
    let encoder = Encoder::new(640, 480, terminal(), None).unwrap();

    assert_eq!(encoder.width, 640);
    assert_eq!(encoder.height, 480);
}

#[test]
fn encoder_test_encode_control_data() {
    let encoder = Encoder::new(640, 480, terminal(), None).unwrap();

    let control_data = vec![
        (b"f".to_vec(), b"24".to_vec()),
        (b"s".to_vec(), b"640".to_vec()),
        (b"v".to_vec(), b"480".to_vec()),
    ];

    let encoded_data = encoder.encode_control_data(&control_data);
    assert!(String::from_utf8(encoded_data.clone()).is_ok());
    assert!(String::from_utf8(encoded_data.clone()).unwrap().contains("f=24"));
    assert!(String::from_utf8(encoded_data.clone()).unwrap().contains("s=640"));
    assert!(String::from_utf8(encoded_data.clone()).unwrap().contains("v=480"));
}

#[test]
fn test_encode_frame() {
    let encoder = Encoder::new(640, 480, terminal(), None).unwrap();
    let test_frame = BytesWithTimestamp { data: vec![0; 640 * 480 * 3], timestamp_in_ms: 0 };
    let encoded = encoder.encode(RawVideoMessage::VideoMessage(test_frame));
    assert!(matches!(encoded, Some(EncodedVideoMessage::EncodedVideoMessage(_))));
}

#[test]
fn test_get_terminal_size() {
    let encoder = Encoder::new(640, 480, terminal(), None).unwrap();
    assert!(
        encoder.term_width > 0 && encoder.term_height > 0,
        "Terminal size should be greater than zero"
    );
}

#[test]
fn control_data_is_joined_in_order() {
    let encoder = Encoder::new(640, 360, terminal(), None).unwrap();
    let text = String::from_utf8(encoder.control_data()).unwrap();
    // 45 rows of 16 px give 720 px, 1280 px wide: the whole terminal
    assert_eq!(text, "f=24,s=640,v=360,c=160,r=45,t=d,a=T,X=0,Y=0");
}

#[test]
fn envelope_of_a_black_two_by_one_frame() {
    let term = TerminalSize { cols: 1, rows: 1, x_pixels: 2, y_pixels: 1 };
    let encoder = Encoder::new(2, 1, term, None).unwrap();
    let frame = BytesWithTimestamp { data: vec![0; 6], timestamp_in_ms: 7 };
    let out = match encoder.encode(RawVideoMessage::VideoMessage(frame)) {
        Some(EncodedVideoMessage::EncodedVideoMessage(b)) => b,
        _ => panic!("expected an encoded frame"),
    };
    assert_eq!(out.timestamp_in_ms, 7);
    let bytes = out.data;
    assert_eq!(&bytes[..3], &[0x1B, 0x5F, 0x47]);
    assert_eq!(&bytes[bytes.len() - 2..], &[0x1B, 0x5C]);
    let text = String::from_utf8(bytes[3..bytes.len() - 2].to_vec()).unwrap();
    let (control, payload) = text.split_once(';').unwrap();
    for token in ["f=24", "s=2", "v=1", "c=1", "r=1", "X=0", "Y=0", "t=d", "a=T"] {
        assert!(control.split(',').any(|t| t == token), "missing {}", token);
    }
    assert_eq!(payload, "AAAAAAAA");
    assert_eq!(general_purpose::STANDARD.decode(payload).unwrap(), vec![0u8; 6]);
}

#[test]
fn payload_decodes_to_the_frame_bytes() {
    let encoder = Encoder::new(4, 3, terminal(), None).unwrap();
    let data: Vec<u8> = (0..36).collect();
    let control = encoder.control_data();
    let out = encoder.encode_frame(control.clone(), BytesWithTimestamp { data: data.clone(), timestamp_in_ms: 0 });
    let payload = &out.data[3 + control.len() + 1..out.data.len() - 2];
    assert_eq!(general_purpose::STANDARD.decode(payload).unwrap(), data);
    assert_eq!(payload.len(), 48);
}

#[test]
fn exactly_enough_rows_leaves_no_vertical_margin() {
    // 20 rows of 18 px hold the 360 px video; 80 columns of 8 px hold 640 px
    let term = TerminalSize { cols: 80, rows: 20, x_pixels: 640, y_pixels: 360 };
    let encoder = Encoder::new(640, 360, term, None).unwrap();
    assert_eq!(encoder.display_rows, 20);
    assert_eq!(encoder.display_cols, 80);
    assert_eq!(encoder.y_offset, 0);
    assert_eq!(encoder.x_offset, 0);
}

#[test]
fn wide_terminal_centers_horizontally() {
    let term = TerminalSize { cols: 200, rows: 20, x_pixels: 1600, y_pixels: 360 };
    let encoder = Encoder::new(640, 360, term, None).unwrap();
    assert_eq!(encoder.display_cols, 80);
    assert_eq!(encoder.x_offset, (1600 - 640) / 2);
    assert_eq!(encoder.y_offset, 0);
}

#[test]
fn narrow_terminal_clamps_to_columns() {
    let term = TerminalSize { cols: 40, rows: 40, x_pixels: 320, y_pixels: 720 };
    let encoder = Encoder::new(640, 360, term, None).unwrap();
    assert_eq!(encoder.display_cols, 40);
    // 320 px wide keeps 16:9 at 180 px, ten rows of 18 px
    assert_eq!(encoder.display_rows, 10);
    assert_eq!(encoder.y_offset, (720 - 180) / 2);
    assert_eq!(encoder.x_offset, 0);
}

#[test]
fn forced_vertical_offset_is_kept() {
    let encoder = Encoder::new(640, 360, terminal(), Some(12)).unwrap();
    assert_eq!(encoder.y_offset, 12);
}

#[test]
fn bad_sizes_are_refused() {
    let zero = TerminalSize { cols: 0, rows: 45, x_pixels: 1280, y_pixels: 720 };
    assert_eq!(Encoder::new(640, 360, zero, None).err(), Some(EncoderError::InvalidTerminalSize));
    let tiny = TerminalSize { cols: 80, rows: 24, x_pixels: 40, y_pixels: 480 };
    assert_eq!(Encoder::new(640, 360, tiny, None).err(), Some(EncoderError::InvalidTerminalSize));
    assert_eq!(Encoder::new(0, 360, terminal(), None).err(), Some(EncoderError::InvalidVideoSize));
}

#[test]
fn done_is_forwarded_and_frame_rate_absorbed() {
    let encoder = Encoder::new(640, 360, terminal(), None).unwrap();
    assert!(matches!(encoder.encode(RawVideoMessage::Done), Some(EncodedVideoMessage::Done)));
    assert!(encoder.encode(RawVideoMessage::FramesPerSecond(30)).is_none());
}

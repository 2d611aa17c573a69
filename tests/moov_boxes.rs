use termplay::boxes::ParseError;
use termplay::moov::{get_moov_box, DrainToBox, Streams};

#[test]
fn test_drain_to_box_trait() {
    let mut data = vec![
        0x00, 0x00, 0x00, 0x10, // size = 16
        0x6D, 0x6F, 0x6F, 0x76, // "moov"
        0x01, 0x02, 0x03, 0x04, // 8 bytes of data (16-8=8)
        0x05, 0x06, 0x07, 0x08,
    ];

    let (size, title) = data.get_next_box_size_and_title();
    assert_eq!(size, 16);
    assert_eq!(title, "moov");

    let box_data = data.drain_box_data(size);
    assert_eq!(box_data, vec![0x01, 0x02, 0x03, 0x04, 0x05, 0x06, 0x07, 0x08]);
}

#[test]
fn test_get_next_box_size_and_title() {
    let mut data = vec![
        0x00, 0x00, 0x00, 0x18, // size = 24
        0x66, 0x74, 0x79, 0x70, // "ftyp"
        0x69, 0x73, 0x6F, 0x6D, // remaining data
    ];

    let (size, title) = data.get_next_box_size_and_title();
    assert_eq!(size, 24);
    assert_eq!(title, "ftyp");
    assert_eq!(data.len(), 4); // Only remaining data left
}

#[test]
fn test_get_moov_box_with_mvhd() {
    let data = vec![
        // mvhd box
        0x00, 0x00, 0x00, 0x10, // size = 16
        0x6D, 0x76, 0x68, 0x64, // "mvhd"
        0x00, 0x00, 0x00, 0x00, // version + flags
        0x01, 0x02, 0x03, 0x04, // timescale (dummy data)
    ];

    let result = get_moov_box(24, data);
    assert!(result.is_ok());

    let moov_box = result.unwrap();
    assert_eq!(moov_box.size, 24);
    assert_eq!(moov_box.mvhd.size, 16);
    assert_eq!(moov_box.traks.len(), 0);
}

#[test]
fn test_get_moov_box_missing_mvhd() {
    let data = vec![
        // Unknown box instead of mvhd
        0x00, 0x00, 0x00, 0x10, // size = 16
        0x75, 0x6E, 0x6B, 0x6E, // "unkn"
        0x00, 0x00, 0x00, 0x00, // dummy data
        0x01, 0x02, 0x03, 0x04,
    ];

    let result = get_moov_box(24, data);
    assert!(result.is_err());
    let error_msg = result.err().unwrap().to_string();
    assert!(error_msg.contains("No mvhd box found"));
}

#[test]
fn test_streams_enum_variants() {
    let video_stream = Streams::Video;
    let audio_stream = Streams::Audio;

    match video_stream {
        Streams::Video => assert!(true),
        Streams::Audio => assert!(false),
    }

    match audio_stream {
        Streams::Audio => assert!(true),
        Streams::Video => assert!(false),
    }
}

#[test]
fn missing_child_error_names_the_box() {
    let err = get_moov_box(8, vec![]).err().unwrap();
    assert_eq!(err, ParseError::MissingChild(0x6d766864));
    assert_eq!(err.to_string(), "No mvhd box found");
}

#[test]
fn truncated_child_is_a_length_overflow() {
    // a child that declares 32 bytes where 12 are present
    let data = vec![0, 0, 0, 32, b'm', b'v', b'h', b'd', 1, 2, 3, 4];
    assert_eq!(get_moov_box(20, data).err().unwrap(), ParseError::LengthOverflow);
    // a child whose size is below its own header
    let data = vec![0, 0, 0, 4, b'm', b'v', b'h', b'd'];
    assert_eq!(get_moov_box(16, data).err().unwrap(), ParseError::LengthOverflow);
    // fewer than eight bytes left for a header
    let data = vec![0, 0, 0];
    assert_eq!(get_moov_box(11, data).err().unwrap(), ParseError::LengthOverflow);
}

#[test]
fn unknown_child_of_mdia_is_rejected() {
    let mut data = vec![0, 0, 0, 8];
    data.extend_from_slice(b"zzzz");
    let err = termplay::moov::get_mdia_box(16, data).err().unwrap();
    assert_eq!(err, ParseError::UnknownTag(0x7a7a7a7a));
    assert_eq!(err.to_string(), "Unknown sub-box, got zzzz");
}

#[test]
fn sample_table_must_start_with_stsd() {
    let mut data = vec![0, 0, 0, 8];
    data.extend_from_slice(b"stts");
    let err = termplay::moov::get_stbl_box(16, data).err().unwrap();
    assert_eq!(err, ParseError::NotStsd(0x73747473));
    assert_eq!(err.to_string(), "not stsd, got stts");
}

#[test]
fn minimal_moov_gives_an_empty_sample_map() {
    let data = vec![
        0x00, 0x00, 0x00, 0x10, 0x6D, 0x76, 0x68, 0x64, // mvhd header
        0, 0, 0, 0, 0, 0, 0, 0,
    ];
    let moov = get_moov_box(16, data).unwrap();
    assert_eq!(moov.size, 16);
    assert_eq!(moov.traks.len(), 0);
    let map = termplay::sample_map::get_sample_map(moov).unwrap();
    assert!(map.is_empty());
}

#[test]
fn later_box_of_a_tag_wins() {
    let mut data = vec![0, 0, 0, 9, b'm', b'v', b'h', b'd', 1];
    data.extend_from_slice(&[0, 0, 0, 10, b'm', b'v', b'h', b'd', 2, 3]);
    let moov = get_moov_box(27, data).unwrap();
    assert_eq!(moov.mvhd.size, 10);
    assert_eq!(moov.mvhd.data, vec![2, 3]);
}

use termplay::playback::{planar_to_interleaved, OutputChannel, PlaybackClock, TerminalAdapter};

#[test]
fn video_adapter_creation() {
    let adapter = TerminalAdapter::new();
    assert!(adapter.clock.start_ms.is_none());
}

#[test]
fn paced_items_wait_for_their_stamps() {
    // three items stamped 0, 100 and 200 ms arrive together at 5000 ms
    let mut clock = PlaybackClock::new();
    assert_eq!(clock.delay_for(5000, 0), 0);
    assert_eq!(clock.delay_for(5000, 100), 100);
    assert_eq!(clock.delay_for(5000, 200), 200);
    // once 100 ms have passed the second is due
    assert_eq!(clock.delay_for(5100, 100), 0);
    assert_eq!(clock.delay_for(5100, 200), 100);
    // late items go out at once
    assert_eq!(clock.delay_for(5400, 200), 0);
    assert_eq!(clock.start_ms, Some(5000));
}

#[test]
fn frame_is_drawn_from_the_home_position() {
    let adapter = TerminalAdapter::new();
    assert_eq!(adapter.frame_bytes(&[1, 2, 3]), vec![0x1B, b'[', b'H', 1, 2, 3]);
}

#[test]
fn planar_block_is_interleaved() {
    let left: Vec<f32> = vec![0.5, -1.0];
    let right: Vec<f32> = vec![0.25, 2.0];
    let mut planar = vec![];
    for x in left.iter().chain(right.iter()) {
        planar.extend_from_slice(&x.to_le_bytes());
    }
    let out = planar_to_interleaved(&planar);
    let mut expected = vec![];
    for x in [0.5f32, 0.25, -1.0, 2.0] {
        expected.extend_from_slice(&x.to_le_bytes());
    }
    assert_eq!(out, expected);
}

#[test]
fn nothing_is_sent_after_done() {
    let mut channel = OutputChannel::new();
    assert!(channel.may_send(false));
    assert!(channel.may_send(false));
    assert!(channel.may_send(true));
    assert!(!channel.may_send(false));
    assert!(!channel.may_send(true));
}

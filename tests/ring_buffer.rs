use termplay::ring_buffer::{Frame, KittyFrame, RingBuffer, VideoFrame};

#[test]
fn frames_come_out_in_arrival_order() {
    let mut buffer = RingBuffer::new();
    assert_eq!(buffer.len(), 0);
    buffer.push_frame(Frame::new(vec![1], 10));
    buffer.push_frame(Frame::new(vec![2], 20));
    assert_eq!(buffer.len(), 2);
    let first = buffer.get_frame().unwrap();
    assert_eq!(first.data, vec![1]);
    assert_eq!(first.timestamp, 10);
    assert_eq!(buffer.get_frame().unwrap().timestamp, 20);
    assert!(buffer.get_frame().is_none());
}

#[test]
fn frame_records_keep_their_fields() {
    let v = VideoFrame::new(vec![9, 8], 3);
    assert_eq!(v.data, vec![9, 8]);
    assert_eq!(v.timestamp, 3);
    let k = KittyFrame::new(vec![7], 4);
    assert_eq!(k.data, vec![7]);
    assert_eq!(k.timestamp, 4);
}

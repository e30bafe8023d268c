use vpncore::packet_stream::{CodecError, TaggedPacketReceiver, TaggedPacketSender};

#[test]
fn frame_has_little_endian_length_prefix() {
    let mut s = TaggedPacketSender::new();
    s.send(&[1, 2, 3]).unwrap();
    assert_eq!(s.take_output(), vec![3, 0, 1, 2, 3]);
}

#[test]
fn frame_length_high_byte() {
    let mut s = TaggedPacketSender::new();
    let payload = vec![7u8; 300];
    s.send(&payload).unwrap();
    let out = s.take_output();
    assert_eq!(out.len(), 302);
    assert_eq!(out[0], 44); // 300 = 1 * 256 + 44
    assert_eq!(out[1], 1);
    assert_eq!(&out[2..], &payload[..]);
}

#[test]
fn empty_payload_is_legal() {
    let mut s = TaggedPacketSender::new();
    s.send(&[]).unwrap();
    assert_eq!(s.take_output(), vec![0, 0]);
    let mut r = TaggedPacketReceiver::new();
    r.feed(&[0, 0]);
    assert_eq!(r.try_receive(), Some(vec![]));
    assert!(r.finish().is_ok());
}

#[test]
fn oversized_payload_fails_synchronously() {
    let mut s = TaggedPacketSender::new();
    let too_big = vec![0u8; 65536];
    assert_eq!(s.send(&too_big), Err(CodecError::PayloadTooLarge));
    // nothing was queued
    assert_eq!(s.take_output(), Vec::<u8>::new());
}

#[test]
fn largest_payload_is_accepted() {
    let mut s = TaggedPacketSender::new();
    let max = vec![9u8; 65535];
    s.send(&max).unwrap();
    let out = s.take_output();
    assert_eq!(out.len(), 65537);
    assert_eq!(out[0], 255);
    assert_eq!(out[1], 255);
}

#[test]
fn round_trip_through_in_memory_pipe() {
    let mut s = TaggedPacketSender::new();
    let payload: Vec<u8> = (0..=255u8).collect();
    s.send(&payload).unwrap();
    let wire = s.take_output();

    let mut r = TaggedPacketReceiver::new();
    r.feed(&wire);
    assert_eq!(r.try_receive(), Some(payload));
    assert_eq!(r.try_receive(), None);
    assert!(r.finish().is_ok());
}

#[test]
fn partial_reads_reassemble() {
    let mut r = TaggedPacketReceiver::new();
    r.feed(&[4, 0, 10]);
    assert_eq!(r.try_receive(), None);
    r.feed(&[11, 12]);
    assert_eq!(r.try_receive(), None);
    r.feed(&[13]);
    assert_eq!(r.try_receive(), Some(vec![10, 11, 12, 13]));
}

#[test]
fn two_frames_back_to_back() {
    let mut s = TaggedPacketSender::new();
    s.send(&[1]).unwrap();
    s.send(&[2, 3]).unwrap();
    let wire = s.take_output();

    let mut r = TaggedPacketReceiver::new();
    r.feed(&wire);
    assert_eq!(r.try_receive(), Some(vec![1]));
    assert_eq!(r.try_receive(), Some(vec![2, 3]));
    assert_eq!(r.try_receive(), None);
}

#[test]
fn truncated_stream_is_premature_eof() {
    let mut r = TaggedPacketReceiver::new();
    r.feed(&[5, 0, 1, 2]); // announces 5 bytes, carries 2
    assert_eq!(r.try_receive(), None);
    assert_eq!(r.finish(), Err(CodecError::UnexpectedEof));
}

#[test]
fn length_prefix_alone_is_premature_eof() {
    let mut r = TaggedPacketReceiver::new();
    r.feed(&[1]);
    assert_eq!(r.try_receive(), None);
    assert_eq!(r.finish(), Err(CodecError::UnexpectedEof));
}

#[test]
fn sender_output_accumulates_until_taken() {
    let mut s = TaggedPacketSender::new();
    s.send(&[1]).unwrap();
    s.send(&[2]).unwrap();
    assert_eq!(s.take_output(), vec![1, 0, 1, 1, 0, 2]);
    assert_eq!(s.take_output(), Vec::<u8>::new());
}

use minikv::{Frame, FrameDecoder, ReadStep};

#[test]
fn frame_split_across_reads_reassembles() {
    let bytes = b"+hello\r\n";
    let mut dec = FrameDecoder::new();
    for (i, b) in bytes.iter().enumerate() {
        match dec.try_frame() {
            ReadStep::NeedMore => {}
            _ => panic!("should need more before byte {}", i),
        }
        dec.feed(&[*b]);
    }
    match dec.try_frame() {
        ReadStep::Frame(Frame::Simple(s)) => assert_eq!(s, "hello"),
        _ => panic!("expected the reassembled frame"),
    }
    assert!(dec.is_empty());
}

#[test]
fn pipelined_frames_come_out_in_order() {
    let mut dec = FrameDecoder::new();
    dec.feed(b"+one\r\n:2\r\n");
    match dec.try_frame() {
        ReadStep::Frame(Frame::Simple(s)) => assert_eq!(s, "one"),
        _ => panic!("expected first frame"),
    }
    match dec.try_frame() {
        ReadStep::Frame(Frame::Integer(v)) => assert_eq!(v, 2),
        _ => panic!("expected second frame"),
    }
    assert!(dec.is_empty());
    assert!(matches!(dec.try_frame(), ReadStep::NeedMore));
}

#[test]
fn corrupt_input_is_reported_and_kept() {
    let mut dec = FrameDecoder::new();
    dec.feed(b"!bad\r\n");
    assert!(matches!(dec.try_frame(), ReadStep::Corrupt(_)));
    // Nothing was consumed: the connection is beyond recovery.
    assert_eq!(dec.buffered(), 6);
}

#[test]
fn close_with_empty_buffer_is_clean() {
    // A peer that closes while the buffer is empty closed cleanly.
    let dec = FrameDecoder::new();
    assert!(dec.is_empty());
}

#[test]
fn close_mid_frame_is_not_clean() {
    // A peer that closes after sending part of a frame did not close
    // cleanly: the buffer still holds the partial frame.
    let mut dec = FrameDecoder::new();
    dec.feed(b"+hal");
    assert!(matches!(dec.try_frame(), ReadStep::NeedMore));
    assert!(!dec.is_empty());
}

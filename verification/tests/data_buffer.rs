use sse_stream::{DataBuffer, Error};

#[test]
fn completed_large_event_bounds_retained_scratch_space() {
    let mut buffer = DataBuffer::default();
    let large = vec![b'x'; 65536 * 8];
    buffer.push_fragment(&large);
    buffer.finish_line().expect("ASCII is valid UTF-8");
    assert_eq!(buffer.take().expect("completed data").as_bytes(), large);
    assert!(buffer.retained_capacity() <= 65536);
    buffer.push_line(b"small").expect("valid ASCII");
    let small = buffer.take().expect("completed small data");
    assert_eq!(small, "small");
    assert!(small.capacity() <= 64);
}

#[test]
fn unfinished_bytes_never_reach_owned_string() {
    let mut buffer = DataBuffer::default();
    buffer.push_line(b"valid").expect("valid ASCII");
    buffer.push_fragment(b"\xff");
    assert_eq!(buffer.take().as_deref(), Some("valid"));
    buffer.push_fragment(b"\xff");
    buffer.push_line(b"next").expect("valid ASCII");
    assert_eq!(buffer.take().as_deref(), Some("next"));
}

#[test]
fn failed_line_preserves_only_completed_lines() {
    let mut buffer = DataBuffer::default();
    buffer.push_line(b"").expect("empty line is valid");
    buffer.push_fragment(b"\xe4");
    assert!(buffer.finish_line().is_err());
    assert_eq!(buffer.take().as_deref(), Some(""));
    assert!(buffer.take().is_none());
}

#[test]
fn lines_join_with_line_feeds() {
    let mut buffer = DataBuffer::new();
    assert!(buffer.take().is_none());
    buffer.push_line(b"a").expect("valid");
    buffer.push_fragment(b"\xe4\xbd");
    buffer.push_fragment(b"\xa0");
    buffer.finish_line().expect("complete character");
    buffer.push_line(b"").expect("valid");
    assert_eq!(buffer.take().as_deref(), Some("a\n你\n"));
    assert!(buffer.take().is_none());
}

#[test]
fn invalid_complete_line_changes_nothing() {
    let mut buffer = DataBuffer::new();
    buffer.push_line(b"kept").expect("valid");
    assert!(matches!(buffer.push_line(b"\xff"), Err(Error::Utf8Parse(_))));
    assert!(matches!(buffer.finish_line(), Ok(())));
    assert_eq!(buffer.take().as_deref(), Some("kept\n"));
}

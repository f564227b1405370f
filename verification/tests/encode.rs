use bytes::Bytes;
use sse_stream::{EncodeError, KeepAlive, Sse};

#[test]
fn encoded_fields_keep_their_wire_representation() {
    let cases = [
        (Sse::default(), "\n"),
        (Sse::default().data(""), "data: \n\n"),
        (Sse::default().event("message"), "event: message\n\n"),
        (Sse::default().event("x\0y"), "event: x\0y\n\n"),
        (Sse::default().id(""), "id: \n\n"),
        (Sse::default().retry(0), "retry: 0\n\n"),
        (
            Sse::default().retry(u64::MAX),
            "retry: 18446744073709551615\n\n",
        ),
        (
            Sse::default()
                .event("message")
                .data(r#"{"text":"中文🙂\nnext"}"#)
                .id("abc")
                .retry(1000),
            "event: message\ndata: {\"text\":\"中文🙂\\nnext\"}\nid: abc\nretry: 1000\n\n",
        ),
    ];
    for (event, expected) in cases {
        assert_eq!(
            Bytes::try_from(event).expect("valid metadata").as_ref(),
            expected.as_bytes()
        );
    }
}

#[test]
fn invalid_metadata_is_rejected_at_encoding_boundary() {
    for value in ["x\ny", "x\ry", "x\r\ny"] {
        assert_eq!(
            Sse::default().event(value).encode(),
            Err(EncodeError::InvalidEvent)
        );
        assert_eq!(
            Bytes::try_from(Sse::default().id(value)),
            Err(EncodeError::InvalidId)
        );
    }
    assert_eq!(
        Sse {
            id: Some("x\0y".into()),
            ..Sse::default()
        }
        .encode(),
        Err(EncodeError::InvalidId)
    );
}

#[test]
fn keep_alive_rejects_invalid_metadata_during_configuration() {
    for (event, expected) in [
        (Sse::default().event("x\ny"), EncodeError::InvalidEvent),
        (Sse::default().id("x\ry"), EncodeError::InvalidId),
        (Sse::default().id("x\0y"), EncodeError::InvalidId),
    ] {
        assert_eq!(
            KeepAlive::new().event(event).expect_err("invalid metadata"),
            expected
        );
    }
}

#[test]
fn retry_duration_saturates_instead_of_wrapping() {
    assert_eq!(
        Sse::default()
            .retry_duration(std::time::Duration::MAX)
            .retry,
        Some(u64::MAX)
    );
}

#[test]
fn retry_duration_counts_whole_milliseconds() {
    let event = Sse::default().retry_duration(std::time::Duration::from_micros(2_500_999));
    assert_eq!(event.retry, Some(2500));
    assert_eq!(Sse::default().retry_millis(7).retry, Some(7));
    assert_eq!(
        Sse::default().retry_millis(u64::MAX as u128 + 1).retry,
        Some(u64::MAX)
    );
}

#[test]
fn readme_example_encodes_one_data_line_per_line() {
    let bytes = Sse::default()
        .event("message")
        .data("hello\nworld")
        .encode()
        .expect("valid metadata");
    assert_eq!(
        bytes.as_ref(),
        b"event: message\ndata: hello\ndata: world\n\n"
    );
    assert_eq!(
        Sse::default().id("invalid\nid").encode(),
        Err(EncodeError::InvalidId)
    );
}

#[test]
fn data_line_endings_are_normalized_and_empty_lines_kept() {
    let cases: [(&str, &[u8]); 7] = [
        ("a\r\nb\r", b"data: a\ndata: b\ndata: \n\n"),
        ("a\rb", b"data: a\ndata: b\n\n"),
        ("\r\n", b"data: \ndata: \n\n"),
        ("\n\n", b"data: \ndata: \ndata: \n\n"),
        ("a\n\r\nb", b"data: a\ndata: \ndata: b\n\n"),
        ("", b"data: \n\n"),
        ("plain", b"data: plain\n\n"),
    ];
    for (data, expected) in cases {
        assert_eq!(
            Sse::default().data(data).encode().expect("no metadata").as_ref(),
            expected,
            "data={data:?}"
        );
    }
}

#[test]
fn fields_are_written_in_a_fixed_order() {
    let event = Sse::default().retry(5).id("i").data("d").event("e");
    assert_eq!(
        event.encode().expect("valid metadata").as_ref(),
        b"event: e\ndata: d\nid: i\nretry: 5\n\n"
    );
}

#[test]
fn event_type_with_line_end_is_checked_before_id() {
    assert_eq!(
        Sse::default().event("a\nb").id("c\0d").encode(),
        Err(EncodeError::InvalidEvent)
    );
    assert_eq!(
        Sse::default().event("ok").id("c\nd").encode(),
        Err(EncodeError::InvalidId)
    );
    assert_eq!(
        Sse::default().event("ok\0").data("x\0y").encode().expect("NULL allowed").as_ref(),
        b"event: ok\0\ndata: x\0y\n\n"
    );
}

fn comment(text: &str) -> Bytes {
    KeepAlive::new().comment(text).event_bytes()
}

#[test]
fn comments_prefix_every_line() {
    assert_eq!(comment("").as_ref(), b": \n\n");
    assert_eq!(comment("ping").as_ref(), b": ping\n\n");
    assert_eq!(comment("a\r\nb\rc\n").as_ref(), b": a\n: b\n: c\n: \n\n");
}

#[test]
fn keep_alive_defaults_and_interval() {
    let keep_alive = KeepAlive::new();
    assert_eq!(keep_alive.event_bytes().as_ref(), b":\n\n");
    assert_eq!(keep_alive.max_interval(), std::time::Duration::from_secs(15));
    let keep_alive = KeepAlive::default().interval(std::time::Duration::from_millis(250));
    assert_eq!(keep_alive.max_interval(), std::time::Duration::from_millis(250));
    assert_eq!(keep_alive.event_bytes().as_ref(), b":\n\n");
    let copy = keep_alive.clone().comment("x");
    assert_eq!(copy.event_bytes().as_ref(), b": x\n\n");
    assert_eq!(copy.max_interval(), std::time::Duration::from_millis(250));
    assert_eq!(keep_alive.event_bytes().as_ref(), b":\n\n");
}

#[test]
fn builders_and_predicates() {
    let event = Sse::default().event("e");
    assert!(event.is_event());
    assert!(!event.is_message());
    let message = Sse::default().data("d");
    assert!(message.is_message());
    assert!(!message.is_event());
    assert_eq!(
        Sse::default().event("e").data("d").id("i").retry(3),
        Sse {
            event: Some("e".to_owned()),
            data: Some("d".to_owned()),
            id: Some("i".to_owned()),
            retry: Some(3),
        }
    );
    assert_eq!(Sse::default().event("a").event("b").event, Some("b".to_owned()));
}

fn decode_all(chunks: &[&[u8]]) -> Vec<Sse> {
    let mut decoder = sse_stream::SseByteStream::new(());
    let mut events = Vec::new();
    for chunk in chunks {
        let mut rest: &[u8] = chunk;
        loop {
            match decoder.decode_chunk(rest) {
                sse_stream::ChunkOutcome::Event { consumed, event } => {
                    events.push(event);
                    rest = &rest[consumed..];
                }
                sse_stream::ChunkOutcome::NeedMore => break,
                other => panic!("valid wire expected: {other:?}"),
            }
        }
    }
    decoder.end_input();
    events
}

#[test]
fn multiline_data_preserves_empty_lines_and_normalizes_line_endings() {
    for (value, normalized) in [
        ("a\nb", "a\nb"),
        ("a\n\nb", "a\n\nb"),
        ("\na\n", "\na\n"),
        ("\n", "\n"),
        ("\n\n", "\n\n"),
        ("a\r\nb\r", "a\nb\n"),
        ("a\rb", "a\nb"),
        ("\r\n", "\n"),
        ("a\n\r\nb", "a\n\nb"),
        (
            "中文🙂\n data: x\n\nid: injected",
            "中文🙂\n data: x\n\nid: injected",
        ),
    ] {
        let event = Sse::default().id("original").event("message").data(value);
        let wire = event.encode().expect("valid metadata");
        for width in [1, 4, wire.len()] {
            let chunks: Vec<&[u8]> = wire.chunks(width).collect();
            assert_eq!(
                decode_all(&chunks),
                vec![Sse::default()
                    .id("original")
                    .event("message")
                    .data(normalized)],
                "value={value:?}, width={width}"
            );
        }
    }
}

#[test]
fn text_lines_normalize_and_count() {
    let lines = sse_stream::TextLines::new(b"a\r\nb\rc");
    assert_eq!(lines.encoded_len(6), 5 + 6 + 1 + 2 * 6);
    let mut output = Vec::new();
    lines.write(&mut output, b"data: ");
    assert_eq!(output, b"data: a\ndata: b\ndata: c\n");
    let plain = sse_stream::TextLines::new(b"abc");
    assert_eq!(plain.encoded_len(2), 6);
    assert_eq!(plain.encoded_len(usize::MAX), usize::MAX);
    let mut output = b"x".to_vec();
    plain.write(&mut output, b": ");
    assert_eq!(output, b"x: abc\n");
}

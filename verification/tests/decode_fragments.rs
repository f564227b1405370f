use sse_stream::{ChunkOutcome, Error, Sse, SseByteStream};

/// Decode `chunks` one after another with a default decoder; the events, and
/// the error that ended the decoder, if one did.
fn decode(chunks: &[&[u8]]) -> (Vec<Sse>, Option<Error>) {
    let mut decoder = SseByteStream::new(());
    let mut events = Vec::new();
    for chunk in chunks {
        let mut rest: &[u8] = chunk;
        loop {
            match decoder.decode_chunk(rest) {
                ChunkOutcome::Event { consumed, event } => {
                    events.push(event);
                    rest = &rest[consumed..];
                }
                ChunkOutcome::NeedMore => break,
                ChunkOutcome::Failed(error) => return (events, Some(error)),
                ChunkOutcome::Finished => panic!("decoder ended early"),
            }
        }
    }
    decoder.end_input();
    (events, None)
}

fn collect_from_chunks(chunks: Vec<&[u8]>) -> Vec<Sse> {
    let (events, error) = decode(&chunks);
    assert!(error.is_none(), "parse error: {error:?}");
    events
}

fn data_only(s: &str) -> Sse {
    Sse {
        event: None,
        data: Some(s.to_owned()),
        id: None,
        retry: None,
    }
}

#[test]
fn test_data_prefix_split_at_every_byte() {
    let cases: Vec<Vec<&'static [u8]>> = vec![
        vec![b"d", b"ata: hello\n\n"],
        vec![b"da", b"ta: hello\n\n"],
        vec![b"dat", b"a: hello\n\n"],
        vec![b"data", b": hello\n\n"],
        vec![b"data:", b" hello\n\n"],
    ];
    for chunks in cases {
        assert_eq!(collect_from_chunks(chunks), vec![data_only("hello")]);
    }
}

#[test]
fn test_field_continuations_are_not_new_lines() {
    let input = b"event: data: update\nid: : stream/7\n: data: ignored\ndata: payload\n\n";
    let expected = vec![Sse::default()
        .event("data: update")
        .id(": stream/7")
        .data("payload")];
    for split in 0..=input.len() {
        let actual = collect_from_chunks(vec![&input[..split], b"", &input[split..]]);
        assert_eq!(actual, expected, "split={split}");
    }
}

#[test]
fn test_split_prefix_ending_at_colon_preserves_space_handling() {
    for tail in ["hello", " hello", ""] {
        let input = format!("data: {tail}\n\n");
        for split in 1..5 {
            let chunks: Vec<&[u8]> = vec![
                &input.as_bytes()[..split],
                b"",
                &input.as_bytes()[split..5],
                b"",
                &input.as_bytes()[5..],
            ];
            assert_eq!(collect_from_chunks(chunks), vec![data_only(tail)]);
        }
    }
}

#[test]
fn test_empty_chunk_between_split_crlf() {
    let out = collect_from_chunks(vec![b"data: hello\r", b"", b"\ndata: world\n\n"]);
    assert_eq!(out, vec![data_only("hello\nworld")]);
}

#[test]
fn test_event_boundaries_preserve_fields_across_every_split() {
    let text = [
        "data: 首条🙂\n\n",
        "event: update\nid: stream/7\nretry: 1000\n",
        "data: first\ndata:\ndata: last\n\n",
        "data: before-id\nid: stream/8\n\n",
        ": keepalive\r\n\r\n",
        "data: crlf\r\n\r\n",
        "data:\n\n",
        "data: unfinished",
    ]
    .concat();
    let input = text.as_bytes();
    let expected = vec![
        data_only("首条🙂"),
        Sse::default()
            .event("update")
            .id("stream/7")
            .retry(1000)
            .data("first\n\nlast"),
        Sse::default().data("before-id").id("stream/8"),
        data_only("crlf"),
        data_only(""),
    ];
    for split in 0..=input.len() {
        let actual = collect_from_chunks(vec![&input[..split], b"", &input[split..]]);
        assert_eq!(actual, expected, "split={split}");
    }
}

#[test]
fn test_cr_lf_split_across_chunks() {
    let out = collect_from_chunks(vec![b"data: hello\r", b"\ndata: world\n\n"]);
    assert_eq!(out, vec![data_only("hello\nworld")]);
}

#[test]
fn test_cr_then_non_lf_across_chunks() {
    let out = collect_from_chunks(vec![b"data: a\r", b"data: b\n\n"]);
    assert_eq!(out, vec![data_only("a\nb")]);
}

#[test]
fn test_cr_then_cr_across_chunks() {
    let out = collect_from_chunks(vec![b"data: a\r", b"\rdata: b\n\n"]);
    assert_eq!(out, vec![data_only("a"), data_only("b")]);
}

#[test]
fn test_dispatch_boundary_split_at_cr() {
    let out = collect_from_chunks(vec![b"data: x\r\n\r", b"\n"]);
    assert_eq!(out, vec![data_only("x")]);
}

#[test]
fn test_fragmented_comment_lines() {
    let out = collect_from_chunks(vec![b": ke", b"ep", b"alive\n", b"\n"]);
    assert!(out.is_empty());

    let out = collect_from_chunks(vec![b": comm", b"ent\ndata: before\n\n"]);
    assert_eq!(out, vec![data_only("before")]);

    let out = collect_from_chunks(vec![b"data: after\n: comm", b"ent\n\n"]);
    assert_eq!(out, vec![data_only("after")]);
}

#[test]
fn fragmented_invalid_comment_is_ignored_with_debug_tracing() {
    let input = b": \xff\r\n\r\ndata: after\n\n";
    for split in 0..=input.len() {
        let out = collect_from_chunks(vec![&input[..split], &input[split..]]);
        assert_eq!(out, vec![data_only("after")], "split={split}");
    }
}

#[test]
fn test_multiple_events_split_chunks() {
    let out = collect_from_chunks(vec![
        b"event: a\ndata: 1\n",
        b"\nevent: b\nda",
        b"ta: 2\n\n",
    ]);
    assert_eq!(
        out,
        vec![
            Sse {
                event: Some("a".into()),
                data: Some("1".into()),
                ..Default::default()
            },
            Sse {
                event: Some("b".into()),
                data: Some("2".into()),
                ..Default::default()
            },
        ]
    );
}

#[test]
fn test_bom_split_across_chunks() {
    let out = collect_from_chunks(vec![b"\xEF", b"\xBB\xBFdata: hello\n\n"]);
    assert_eq!(out.len(), 1, "Should have one SSE event");
    assert_eq!(out[0].data, Some("hello".to_string()));
}

#[test]
fn test_bom_split_across_segments_of_one_frame() {
    let out = collect_from_chunks(vec![b"\xEF", b"\xBB", b"\xBF", b"data: hello\n\n"]);
    assert_eq!(out, vec![data_only("hello")]);
}

#[test]
fn test_crlf_split_across_segments_of_one_frame() {
    let out = collect_from_chunks(vec![b"data: hello\r", b"\n", b"data: world\n\n"]);
    assert_eq!(out, vec![data_only("hello\nworld")]);
}

#[test]
fn test_fragmented_data_line_split_mid_utf8_char() {
    let out = collect_from_chunks(vec![b"data: \xe4", b"\xbd\xa0 ok\n\n"]);
    assert_eq!(out, vec![data_only("你 ok")]);
}

#[test]
fn test_fragmented_data_line_five_byte_chunks() {
    const PAYLOAD: &str = "data: 你好世界🦀\n\n";
    let out = collect_from_chunks(PAYLOAD.as_bytes().chunks(5).collect());
    assert_eq!(out, vec![data_only("你好世界🦀")]);
}

#[test]
fn test_fragmented_data_line_empty_first_fragment() {
    let out = collect_from_chunks(vec![b"data:", b"payload\n\n"]);
    assert_eq!(out, vec![data_only("payload")]);
}

#[test]
fn test_fragmented_data_line_does_not_leak_into_next_event() {
    let out = collect_from_chunks(vec![b"data: first-", b"part2\n\nda", b"ta: second\n\n"]);
    assert_eq!(out, vec![data_only("first-part2"), data_only("second")]);
}

#[test]
fn test_invalid_utf8_in_fragmented_data_line() {
    let (events, error) = decode(&[b"data: \xff", b"\xfe\n\n"]);
    assert!(events.is_empty());
    assert!(
        matches!(error, Some(Error::Utf8Parse(_))),
        "expected Utf8Parse error, got {error:?}"
    );
}

#[test]
fn test_multiple_events_retained_from_one_byte_buffer() {
    let out = collect_from_chunks(vec![b"data: one\n\ndata: two\n\n"]);
    assert_eq!(out, vec![data_only("one"), data_only("two")]);
}

#[test]
fn test_event_split_across_many_immediately_ready_fragments() {
    let mut chunks: Vec<&[u8]> = vec![b"data: "];
    for _ in 0..10000 {
        chunks.push(b"x");
    }
    chunks.push(b"\n\n");
    let out = collect_from_chunks(chunks);
    assert_eq!(out, vec![data_only(&"x".repeat(10000))]);
}

#[test]
fn varied_sizes_keep_complete_payloads() {
    let sizes = [32_768, 4096, 8191, 8192, 8193, 512, 16_384, 80, 40_000];
    let values: Vec<_> = sizes.iter().map(|&size| "x".repeat(size)).collect();
    let input: String = values
        .iter()
        .map(|value| format!("data: {value}\ndata: tail\n\n"))
        .collect();
    for width in [10, 1460, input.len()] {
        let chunks: Vec<&[u8]> = input.as_bytes().chunks(width).collect();
        let events = collect_from_chunks(chunks);
        assert_eq!(events.len(), values.len(), "width={width}");
        for (event, value) in events.iter().zip(&values) {
            assert_eq!(
                event.data.as_deref(),
                Some(format!("{value}\ntail").as_str())
            );
        }
    }
}

#[test]
fn small_events_after_large_events_have_compact_owned_data() {
    let large = "中文🙂é".repeat(4000);
    let mut input = format!("data: {large}\n\n");
    input.push_str("id: control\n\ndata:\n\n");
    for _ in 0..32 {
        input.push_str("data: x\ndata: y\n\n");
    }
    input.push_str(&format!("data: {large}\r\n\r\ndata: tail\n\n"));

    for width in [1, 4, 255, 1460, input.len()] {
        let chunks: Vec<&[u8]> = input.as_bytes().chunks(width).collect();
        // All outputs stay alive, as for a consumer that queues events.
        let events = collect_from_chunks(chunks);
        assert_eq!(events.len(), 37);
        assert_eq!(events[0].data.as_deref(), Some(large.as_str()));
        assert_eq!(events[1], Sse::default().id("control"));
        assert_eq!(events[2].data.as_deref(), Some(""));
        assert_eq!(events[35].data.as_deref(), Some(large.as_str()));
        assert_eq!(events[36].data.as_deref(), Some("tail"));
        for event in &events[3..35] {
            assert_eq!(event.data.as_deref(), Some("x\ny"));
        }
        for index in (2..35).chain(std::iter::once(36)) {
            let data = events[index].data.as_ref().unwrap();
            assert!(
                data.capacity() <= 64,
                "small output retained a large allocation: width={width}, index={index}, capacity={}",
                data.capacity()
            );
        }
    }
}

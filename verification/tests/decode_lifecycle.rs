use sse_stream::{BoxError, ChunkOutcome, Error, Sse, SseByteStream};

fn data_only(s: &str) -> Sse {
    Sse {
        event: None,
        data: Some(s.to_owned()),
        id: None,
        retry: None,
    }
}

/// The next event or error of `rest`, leaving in `rest` what is still to be
/// decoded; `None` once the chunk is used up.
fn next_in(decoder: &mut SseByteStream<()>, rest: &mut &[u8]) -> Option<Result<Sse, Error>> {
    match decoder.decode_chunk(rest) {
        ChunkOutcome::Event { consumed, event } => {
            *rest = &rest[consumed..];
            Some(Ok(event))
        }
        ChunkOutcome::NeedMore => None,
        ChunkOutcome::Failed(error) => Some(Err(error)),
        ChunkOutcome::Finished => None,
    }
}

#[test]
fn parse_errors_end_both_decoders_for_every_chunk_width() {
    let input = b"data: before\ndata: \xff\n\ndata: after\n\n";
    for width in 1..=input.len() {
        let mut decoder = SseByteStream::new(());
        let mut outcome = None;
        'chunks: for chunk in input.chunks(width) {
            let mut rest = chunk;
            while let Some(item) = next_in(&mut decoder, &mut rest) {
                outcome = Some(item);
                break 'chunks;
            }
        }
        assert!(matches!(outcome, Some(Err(Error::Utf8Parse(_)))), "width={width}");
        assert!(decoder.is_terminated());
        assert!(matches!(decoder.decode_chunk(b"data: x\n\n"), ChunkOutcome::Finished));
        assert!(matches!(decoder.decode_chunk(b""), ChunkOutcome::Finished));
    }
}

#[test]
fn invalid_first_data_line_never_creates_an_empty_event() {
    for chunks in [
        vec![&b"data: \xff\n"[..], b"\n"],
        vec![&b"data: \xff"[..], b"\n", b"\n"],
    ] {
        let mut decoder = SseByteStream::new(());
        let mut items = Vec::new();
        for chunk in chunks {
            let mut rest = chunk;
            while let Some(item) = next_in(&mut decoder, &mut rest) {
                let failed = item.is_err();
                items.push(item);
                if failed {
                    break;
                }
            }
        }
        assert_eq!(items.len(), 1);
        assert!(matches!(items[0], Err(Error::Utf8Parse(_))));
        assert!(decoder.is_terminated());
    }
}

#[test]
fn completed_events_precede_error_and_input_is_never_polled_again() {
    let mut decoder = SseByteStream::new(());
    let mut rest: &[u8] = b"data: first\n\ndata: incomplete";
    assert_eq!(
        next_in(&mut decoder, &mut rest)
            .expect("first event")
            .expect("valid event"),
        data_only("first")
    );
    assert!(next_in(&mut decoder, &mut rest).is_none());
    let failure = BoxError(Box::new(std::io::Error::other("transport failed")));
    let error = decoder.fail_input(failure).expect("input failed");
    let Error::Body(BoxError(source)) = error else {
        panic!("expected the transport error");
    };
    assert_eq!(source.to_string(), "transport failed");
    assert!(decoder.is_terminated());
    let again = BoxError(Box::new(std::io::Error::other("late")));
    assert!(decoder.fail_input(again).is_none());
    assert!(matches!(decoder.decode_chunk(b"\n\n"), ChunkOutcome::Finished));
}

#[test]
fn partial_utf8_survives_pending_and_wakeup() {
    let mut decoder = SseByteStream::new(());
    let mut events = Vec::new();
    for chunk in [b"data: \xe4".as_slice(), b"\xbd\xa0\r", b"", b"\n\r", b"", b"\n"] {
        let mut rest = chunk;
        while let Some(item) = next_in(&mut decoder, &mut rest) {
            events.push(item.expect("valid fragmented stream"));
        }
    }
    decoder.end_input();
    assert_eq!(events, vec![data_only("你")]);
}

#[test]
fn eof_discards_partial_data_and_fuses_non_fused_input() {
    let mut decoder = SseByteStream::new(());
    assert!(!decoder.is_terminated());
    let mut rest: &[u8] = b"data: partial";
    assert!(next_in(&mut decoder, &mut rest).is_none());
    decoder.end_input();
    assert!(decoder.is_terminated());
    assert!(matches!(decoder.decode_chunk(b"\n\n"), ChunkOutcome::Finished));
}

#[test]
fn strict_decoder_reports_unknown_fields_once() {
    let mut decoder = SseByteStream::new_strict(());
    let mut rest: &[u8] = b"data: ok\n\nfoo: bar\n\ndata: never\n\n";
    assert_eq!(
        next_in(&mut decoder, &mut rest).expect("event").expect("valid"),
        data_only("ok")
    );
    assert!(matches!(
        next_in(&mut decoder, &mut rest),
        Some(Err(Error::UnknownField))
    ));
    assert!(decoder.is_terminated());
    assert!(next_in(&mut decoder, &mut rest).is_none());
}

#[test]
fn event_outcome_reports_the_bytes_it_used() {
    let mut decoder = SseByteStream::new(());
    let chunk: &[u8] = b"data: a\n\nda";
    let ChunkOutcome::Event { consumed, event } = decoder.decode_chunk(chunk) else {
        panic!("expected an event");
    };
    assert_eq!(consumed, 9);
    assert_eq!(event, data_only("a"));
    assert!(matches!(decoder.decode_chunk(&chunk[consumed..]), ChunkOutcome::NeedMore));
    let ChunkOutcome::Event { consumed, event } = decoder.decode_chunk(b"ta: b\n\n") else {
        panic!("expected an event");
    };
    assert_eq!(consumed, 7);
    assert_eq!(event, data_only("b"));
}

#[test]
fn parser_reports_events_with_the_bytes_they_used() {
    let mut parser = sse_stream::Parser::new(false);
    let parsed = parser
        .parse_chunk(b"retry: 3\n\nid")
        .expect("valid input")
        .expect("an event");
    assert_eq!(parsed.consumed, 10);
    assert_eq!(parsed.event, Sse::default().retry(3));
    assert!(parser.parse_chunk(b"id").expect("valid input").is_none());
    let parsed = parser
        .parse_chunk(b": x\n\n")
        .expect("valid input")
        .expect("an event");
    assert_eq!(parsed.consumed, 5);
    assert_eq!(parsed.event, Sse::default().id("x"));
}

#[test]
fn strict_parser_rejects_unknown_names() {
    let mut parser = sse_stream::Parser::new(true);
    assert!(matches!(parser.parse_chunk(b"x: y\n"), Err(Error::UnknownField)));
    let mut parser = sse_stream::Parser::new(false);
    assert!(matches!(parser.parse_chunk(b"x: y\n"), Ok(None)));
}

#[test]
fn crlf_that_ends_a_block_is_read_with_it() {
    let mut decoder = SseByteStream::new(());
    let chunk: &[u8] = b"data: a\r\n\r\ndata: b\r\n\r";
    let ChunkOutcome::Event { consumed, event } = decoder.decode_chunk(chunk) else {
        panic!("expected an event");
    };
    assert_eq!(consumed, 11);
    assert_eq!(event, data_only("a"));
    let ChunkOutcome::Event { consumed: second, event } = decoder.decode_chunk(&chunk[consumed..]) else {
        panic!("expected an event");
    };
    assert_eq!(second, 10);
    assert_eq!(event, data_only("b"));
    let ChunkOutcome::Event { consumed, event } = decoder.decode_chunk(b"\ndata: c\n\n") else {
        panic!("expected an event");
    };
    assert_eq!(consumed, 10);
    assert_eq!(event, data_only("c"));
}

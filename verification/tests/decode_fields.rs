use sse_stream::{ChunkOutcome, Error, Sse, SseByteStream};

/// Decode `chunks` one after another; the events, and the error that ended
/// the decoder, if one did.
fn decode(chunks: &[&[u8]], strict: bool) -> (Vec<Sse>, Option<Error>) {
    let mut decoder = if strict {
        SseByteStream::new_strict(())
    } else {
        SseByteStream::new(())
    };
    let mut events = Vec::new();
    for chunk in chunks {
        let mut rest: &[u8] = chunk;
        loop {
            match decoder.decode_chunk(rest) {
                ChunkOutcome::Event { consumed, event } => {
                    assert!(consumed > 0 && consumed <= rest.len());
                    events.push(event);
                    rest = &rest[consumed..];
                }
                ChunkOutcome::NeedMore => break,
                ChunkOutcome::Failed(error) => {
                    assert!(decoder.is_terminated());
                    assert!(matches!(decoder.decode_chunk(b"data: x\n\n"), ChunkOutcome::Finished));
                    return (events, Some(error));
                }
                ChunkOutcome::Finished => panic!("decoder ended early"),
            }
        }
    }
    decoder.end_input();
    assert!(decoder.is_terminated());
    assert!(matches!(decoder.decode_chunk(b"data: x\n\n"), ChunkOutcome::Finished));
    (events, None)
}

fn collect(chunks: &[&[u8]]) -> Vec<Sse> {
    let (events, error) = decode(chunks, false);
    assert!(error.is_none(), "parse error: {error:?}");
    events
}

fn collect_whole(data: &[u8]) -> Vec<Sse> {
    collect(&[data])
}

fn collect_width(data: &[u8], width: usize) -> Vec<Sse> {
    let chunks: Vec<&[u8]> = data.chunks(width).collect();
    collect(&chunks)
}

fn data_only(s: &str) -> Sse {
    Sse {
        event: None,
        data: Some(s.to_owned()),
        id: None,
        retry: None,
    }
}

#[test]
fn test_bom_header_at_start() {
    let out = collect_whole(b"\xEF\xBB\xBFdata: hello\n\n");
    assert_eq!(out.len(), 1, "Should have one SSE event");
    assert_eq!(out[0].data, Some("hello".to_string()));
}

#[test]
fn bom_only_opens_the_first_line() {
    assert_eq!(
        collect_whole(b"data: a\n\xEF\xBB\xBFdata: b\n\n"),
        vec![data_only("a")]
    );
    assert_eq!(
        collect_whole(b"\xEF\xBB\xBF\xEF\xBB\xBFdata: b\n\n"),
        Vec::<Sse>::new()
    );
}

#[test]
fn test_line_break_crlf() {
    assert_eq!(
        collect_whole(b"data: a\r\ndata: b\r\n\r\n"),
        vec![data_only("a\nb")]
    );
}

#[test]
fn test_line_break_cr_only() {
    assert_eq!(
        collect_whole(b"data: a\rdata: b\r\r"),
        vec![data_only("a\nb")]
    );
}

#[test]
fn test_line_break_mixed() {
    assert_eq!(
        collect_whole(b"data: one\r\ndata: two\rdata: three\n\r\n"),
        vec![data_only("one\ntwo\nthree")]
    );
}

#[test]
fn test_multiple_consecutive_cr() {
    assert_eq!(collect_whole(b"data: a\r\r\r"), vec![data_only("a")]);
}

#[test]
fn test_comment_lines() {
    assert_eq!(
        collect_whole(b": this is a comment\ndata: hi\n: another\n\n"),
        vec![data_only("hi")]
    );
}

#[test]
fn test_empty_data_field() {
    assert_eq!(collect_whole(b"data:\n\n"), vec![data_only("")]);
}

#[test]
fn test_two_empty_data_lines_join_with_newline() {
    assert_eq!(collect_whole(b"data:\ndata:\n\n"), vec![data_only("\n")]);
}

#[test]
fn test_only_one_leading_space_stripped() {
    assert_eq!(collect_whole(b"data:  hello\n\n"), vec![data_only(" hello")]);
}

#[test]
fn test_id_with_null_byte_ignored() {
    assert_eq!(
        collect_whole(b"id: ab\x00cd\ndata: x\n\n"),
        vec![data_only("x")],
        "id with NULL must be ignored"
    );
}

#[test]
fn test_incomplete_trailing_event_discarded() {
    assert_eq!(
        collect_whole(b"data: complete\n\ndata: incomplete\n"),
        vec![data_only("complete")]
    );
}

#[test]
fn field_rules_are_independent_of_fragmentation() {
    let input = [
        "unknown: extension\nunknown\n",
        "event: old\nevent: new\n",
        "id: old\nid: new\nid: bad\0id\n",
        "retry: 12\nretry: 34\nretry: +56\nretry: 78 \n",
        "retry: 18446744073709551616\nretry\n",
        "data\ndata: tail\n\n",
        "id\nevent\n\n",
        "retry: 0007\n\n",
        "data: next\n\n",
    ]
    .concat();
    let expected = vec![
        Sse::default()
            .event("new")
            .id("new")
            .retry(34)
            .data("\ntail"),
        Sse::default().id("").event(""),
        Sse::default().retry(7),
        Sse::default().data("next"),
    ];
    for width in 1..=input.len() {
        assert_eq!(
            collect_width(input.as_bytes(), width),
            expected,
            "width={width}"
        );
    }
}

#[test]
fn ignored_fields_do_not_create_events() {
    assert!(collect_whole(b"unknown: x\nretry: nope\nid: \0\n\n").is_empty());
    let input = b": \xff\r\n\r\ndata: after\n\n";
    for width in 1..=input.len() {
        assert_eq!(collect_width(input, width), vec![data_only("after")]);
    }
}

#[test]
fn metadata_only_blocks_are_returned() {
    assert_eq!(
        collect_whole(b"id: 7\n\nretry: 10\n\nevent: e\n\n"),
        vec![
            Sse::default().id("7"),
            Sse::default().retry(10),
            Sse::default().event("e"),
        ]
    );
}

#[test]
fn fields_are_not_inherited_across_blocks() {
    assert_eq!(
        collect_whole(b"event: a\nid: 1\nretry: 5\ndata: x\n\ndata: y\n\n"),
        vec![
            Sse::default().event("a").id("1").retry(5).data("x"),
            data_only("y"),
        ]
    );
}

#[test]
fn retry_bounds() {
    assert_eq!(
        collect_whole(b"retry: 18446744073709551615\n\n"),
        vec![Sse::default().retry(u64::MAX)]
    );
    assert!(collect_whole(b"retry: 18446744073709551616\n\n").is_empty());
    assert!(collect_whole(b"retry:\n\n").is_empty());
    assert!(collect_whole(b"retry: 1a\n\n").is_empty());
    assert_eq!(collect_whole(b"retry:9\n\n"), vec![Sse::default().retry(9)]);
}

fn strict_input(line: &[u8]) -> Vec<u8> {
    let mut input = b"\xef\xbb\xbfdata: before\r\n\r\ndata: partial\r\n".to_vec();
    input.extend_from_slice(line);
    input.extend_from_slice(b"\r\ndata: after\r\n\r\ndata: later\r\n\r\n");
    input
}

#[test]
fn unknown_fields_follow_feature_policy_and_errors_are_terminal() {
    let lines: &[&[u8]] = &[
        b"unknown: extension",
        b"unknown",
        b"Data: case sensitive",
        b" data: leading space",
        b"\xff: invalid name",
        b"\xff",
        b"unknown: \xff",
        b"unknown:\0\xff",
    ];
    for line in lines {
        let input = strict_input(line);
        let mut alone = b"\xef\xbb\xbf".to_vec();
        alone.extend_from_slice(line);
        alone.extend_from_slice(b"\r\n\r\n");
        for width in 1..=input.len() {
            let chunks: Vec<&[u8]> = input.chunks(width).collect();
            // By default an unknown field is ignored.
            let (events, error) = decode(&chunks, false);
            assert!(error.is_none());
            assert_eq!(
                events,
                vec![
                    Sse::default().data("before"),
                    Sse::default().data("partial\nafter"),
                    Sse::default().data("later"),
                ]
            );
            // A strict decoder fails once, discarding the partial block and
            // everything after it.
            let (events, error) = decode(&chunks, true);
            assert_eq!(events, vec![Sse::default().data("before")]);
            assert!(matches!(error, Some(Error::UnknownField)));
        }
        for width in 1..=alone.len() {
            let chunks: Vec<&[u8]> = alone.chunks(width).collect();
            let (events, error) = decode(&chunks, false);
            assert!(events.is_empty() && error.is_none());
            let (events, error) = decode(&chunks, true);
            assert!(events.is_empty());
            assert!(matches!(error, Some(Error::UnknownField)));
        }
    }
}

#[test]
fn comments_and_known_fields_remain_valid_in_strict_mode() {
    let input = b"\xef\xbb\xbf: \xff\r\n:\r\n\r\n\
        event: old\r\nevent\r\nid: old\r\nid\r\nid: bad\0\xff\r\n\
        retry: 12\r\nretry\r\nretry: nope\r\nretry: +56\r\nretry: 78 \r\n\
        retry: 18446744073709551616\r\ndata\r\ndata: tail\r\n\r\n\
        retry: nope\r\nid: \0\r\n\r\n";
    let expected = vec![Sse::default().event("").id("").retry(12).data("\ntail")];
    for width in 1..=input.len() {
        let chunks: Vec<&[u8]> = input.chunks(width).collect();
        for strict in [false, true] {
            let (events, error) = decode(&chunks, strict);
            assert!(error.is_none(), "width={width}, strict={strict}");
            assert_eq!(events, expected, "width={width}, strict={strict}");
        }
    }
}

#[test]
fn invalid_utf8_in_known_values_is_not_an_unknown_field() {
    for field in ["data", "event", "id", "retry"] {
        let input = format!("{field}: ").into_bytes();
        let input = [input.as_slice(), b"\xff\r\n\r\n"].concat();
        for width in 1..=input.len() {
            let chunks: Vec<&[u8]> = input.chunks(width).collect();
            for strict in [false, true] {
                let (events, error) = decode(&chunks, strict);
                assert!(events.is_empty());
                assert!(matches!(error, Some(Error::Utf8Parse(_))));
            }
        }
    }
}

#[test]
fn unicode_fields_across_validation_and_input_boundaries() {
    for padding in [0, 62, 63, 64, 252, 253, 254, 255, 256, 4096] {
        let value = format!("{}中文🙂é", "x".repeat(padding));
        let input =
            format!("\u{feff}event: {value}\r\nid: {value}\r\ndata: {value}\r\ndata: tail\r\n\r\n");
        let expected = Sse::default()
            .event(&value)
            .id(&value)
            .data(&format!("{value}\ntail"));
        for width in [1, 4, 63, 64, 255, 256, 1460, input.len()] {
            assert_eq!(
                collect_width(input.as_bytes(), width),
                vec![expected.clone()],
                "padding={padding}, width={width}"
            );
        }
    }
}

fn first_error(input: &[u8], width: usize) -> Error {
    let chunks: Vec<&[u8]> = input.chunks(width).collect();
    let (events, error) = decode(&chunks, false);
    assert!(events.is_empty());
    error.expect("invalid field must fail UTF-8 validation")
}

#[test]
fn invalid_utf8_keeps_standard_library_error_details() {
    let invalid_sequences: &[&[u8]] = &[
        b"\xff",
        b"\x80",
        b"\xc0\xaf",
        b"\xed\xa0\x80",
        b"\xf4\x90\x80\x80",
        b"\xe4\xb8",
    ];
    for field in ["data", "event", "id", "retry"] {
        for offset in [0, 63, 64, 255, 256, 4095] {
            for invalid in invalid_sequences {
                let mut value = vec![b'x'; 8192];
                value.splice(offset..offset + invalid.len(), invalid.iter().copied());
                let expected = std::str::from_utf8(&value).unwrap_err();
                let mut input = format!("{field}: ").into_bytes();
                input.extend_from_slice(&value);
                input.extend_from_slice(b"\r\n\r\n");
                for width in [1, 4, 64, 255, 1460, input.len()] {
                    let Error::Utf8Parse(actual) = first_error(&input, width) else {
                        panic!("expected a UTF-8 error");
                    };
                    assert_eq!(actual.valid_up_to(), expected.valid_up_to());
                    assert_eq!(actual.error_len(), expected.error_len());
                }
            }
        }
    }

    let mut value = vec![b'x'; 8192];
    value.extend_from_slice(b"\xf0\x9f\x99");
    let mut input = b"data: ".to_vec();
    input.extend_from_slice(&value);
    input.extend_from_slice(b"\n\n");
    for width in [1, 255, 1460, input.len()] {
        let Error::Utf8Parse(error) = first_error(&input, width) else {
            panic!("expected a UTF-8 error");
        };
        assert_eq!(error.valid_up_to(), 8192);
        assert_eq!(error.error_len(), None);
    }
}

#[test]
fn long_retry_whitespace_is_ignored() {
    let input = format!(
        "retry: {}18446744073709551615{}\ndata: after\n\n",
        " ".repeat(256),
        " ".repeat(256)
    );
    for width in [1, 255, input.len()] {
        assert_eq!(
            collect_width(input.as_bytes(), width),
            vec![Sse::default().data("after")]
        );
    }
}

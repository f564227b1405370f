use std::time::{Duration, Instant};

use bytes::Bytes;
use sse_stream::{
    BodyError, BodyPoll, BoxError, ChunkOutcome, EncodeError, InputPoll, KeepAlive, Sse, SseBody,
    SseByteStream,
};

fn decode_frame(frame: &[u8]) -> Vec<Sse> {
    let mut decoder = SseByteStream::new(());
    let mut events = Vec::new();
    let mut rest = frame;
    loop {
        match decoder.decode_chunk(rest) {
            ChunkOutcome::Event { consumed, event } => {
                events.push(event);
                rest = &rest[consumed..];
            }
            ChunkOutcome::NeedMore => break,
            other => panic!("unexpected outcome: {other:?}"),
        }
    }
    decoder.end_input();
    events
}

/// What one poll of the body sends, and the timer resets it asks for, as a
/// body polled with a manual timer would record them.
struct Clock {
    resets: usize,
    deadline: Option<Instant>,
}

fn poll_body<S>(
    body: &mut SseBody<S>,
    clock: &mut Clock,
    input: InputPoll,
    timer_ready: bool,
) -> BodyPoll {
    let fired = body.wants_timer(&input) && timer_ready;
    let step = body.step(input, fired);
    if let Some(interval) = step.rearm {
        clock.resets += 1;
        clock.deadline = Some(Instant::now() + interval);
    }
    step.poll
}

fn data_frame(poll: BodyPoll) -> Option<Bytes> {
    match poll {
        BodyPoll::Ready(Some(Ok(frame))) => Some(frame),
        _ => None,
    }
}

#[test]
fn keep_alive_wakes_resets_and_stops_when_input_ends() {
    let interval = Duration::from_secs(10);
    let mut body = SseBody::new(()).with_keep_alive(KeepAlive::new().interval(interval));
    assert!(body.has_keep_alive());
    let mut clock = Clock { resets: 0, deadline: None };
    assert!(matches!(
        poll_body(&mut body, &mut clock, InputPoll::Pending, false),
        BodyPoll::Pending
    ));
    assert_eq!(
        data_frame(poll_body(&mut body, &mut clock, InputPoll::Pending, true)),
        Some(Bytes::from_static(b":\n\n"))
    );
    assert_eq!(clock.resets, 1);
    assert!(matches!(
        poll_body(&mut body, &mut clock, InputPoll::Pending, false),
        BodyPoll::Pending
    ));

    // Real events take priority even when a keep-alive is also ready.
    let before_event = Instant::now();
    let event = InputPoll::Ready(Some(Ok(Sse::default().data("event"))));
    assert_eq!(
        data_frame(poll_body(&mut body, &mut clock, event, true)),
        Some(Bytes::from_static(b"data: event\n\n"))
    );
    let after_event = Instant::now();
    assert_eq!(clock.resets, 2);
    let deadline = clock.deadline.expect("rearmed timer");
    assert!(deadline >= before_event + interval && deadline <= after_event + interval);
    assert!(
        matches!(
            poll_body(&mut body, &mut clock, InputPoll::Pending, false),
            BodyPoll::Pending
        ),
        "event must postpone keep-alive"
    );
    assert_eq!(
        data_frame(poll_body(&mut body, &mut clock, InputPoll::Pending, true)),
        Some(Bytes::from_static(b":\n\n"))
    );
    assert_eq!(clock.resets, 3);
    assert!(matches!(
        poll_body(&mut body, &mut clock, InputPoll::Pending, false),
        BodyPoll::Pending
    ));
    assert!(matches!(
        poll_body(&mut body, &mut clock, InputPoll::Ready(None), true),
        BodyPoll::Ready(None)
    ));
    assert!(body.is_end_stream());
    assert!(matches!(
        poll_body(&mut body, &mut clock, InputPoll::Pending, true),
        BodyPoll::Ready(None)
    ));
    assert_eq!(clock.resets, 3);
}

#[test]
fn body_errors_stop_input_and_keep_alives() {
    let items: [Result<Sse, BoxError>; 3] = [
        Ok(Sse::default().event("bad\nevent")),
        Ok(Sse::default().id("bad\0id")),
        Err(BoxError(Box::new(std::io::Error::new(
            std::io::ErrorKind::BrokenPipe,
            "source closed",
        )))),
    ];
    for item in items {
        let expected_encoding_error = match &item {
            Ok(event) if event.event.is_some() => Some(EncodeError::InvalidEvent),
            Ok(_) => Some(EncodeError::InvalidId),
            Err(_) => None,
        };
        let mut body =
            SseBody::new_keep_alive((), KeepAlive::new().interval(Duration::ZERO));
        let mut clock = Clock { resets: 0, deadline: None };
        assert!(!body.is_end_stream());
        // The timer is already ready; the input's error still comes first.
        let BodyPoll::Ready(Some(Err(error))) =
            poll_body(&mut body, &mut clock, InputPoll::Ready(Some(item)), true)
        else {
            panic!("expected a body error before the ready keep-alive");
        };
        match (&error, expected_encoding_error) {
            (BodyError::Encode(actual), Some(expected)) => {
                assert_eq!(*actual, expected);
            }
            (BodyError::Stream(BoxError(source)), None) => {
                let source = source
                    .downcast_ref::<std::io::Error>()
                    .expect("upstream io error");
                assert_eq!(source.kind(), std::io::ErrorKind::BrokenPipe);
                assert_eq!(source.to_string(), "source closed");
            }
            _ => panic!("wrong body error: {error:?}"),
        }
        assert!(body.is_end_stream());
        for _ in 0..2 {
            assert!(matches!(
                poll_body(&mut body, &mut clock, InputPoll::Pending, true),
                BodyPoll::Ready(None)
            ));
            assert!(body.next_frame(None).is_none());
            assert!(body.keep_alive_frame().is_none());
        }
        assert_eq!(clock.resets, 0);
    }
}

#[test]
fn custom_keep_alive_event_uses_validated_encoding() {
    let keep_alive = KeepAlive::new()
        .interval(Duration::ZERO)
        .event(Sse::default().event("ping").id("1").data("a\r\nb\n"))
        .expect("valid keep-alive metadata");
    let mut body = SseBody::new_keep_alive(
        futures_util::stream::pending::<Result<Sse, std::convert::Infallible>>(),
        keep_alive,
    );
    let mut clock = Clock { resets: 0, deadline: None };
    assert_eq!(
        data_frame(poll_body(&mut body, &mut clock, InputPoll::Pending, true)),
        Some(Bytes::from_static(
            b"event: ping\ndata: a\ndata: b\ndata: \nid: 1\n\n"
        ))
    );
}

#[test]
fn multiline_keep_alive_comments_cannot_inject_events() {
    let mut body = SseBody::new_keep_alive(
        futures_util::stream::pending::<Result<Sse, std::convert::Infallible>>(),
        KeepAlive::new()
            .interval(Duration::ZERO)
            .comment("hello\r\ndata: injected\n\n"),
    );
    let mut clock = Clock { resets: 0, deadline: None };
    let frame = data_frame(poll_body(&mut body, &mut clock, InputPoll::Pending, true))
        .expect("keep-alive frame");
    assert_eq!(frame.as_ref(), b": hello\n: data: injected\n: \n: \n\n");
    assert!(decode_frame(&frame).is_empty());
}

#[test]
fn body_without_timer_reports_keep_alive_disabled() {
    let body = SseBody::new(futures_util::stream::empty::<
        Result<Sse, std::convert::Infallible>,
    >());
    assert!(!body.has_keep_alive());
    assert!(body.keep_alive().is_none());
    assert!(body.keep_alive_frame().is_none());
}

#[test]
fn encoded_events_read_back_through_the_decoder() {
    let sse_sequence = [
        Sse::default().event("1").data("....."),
        Sse::default().event("2").data("....."),
        Sse::default().event("3").data("....."),
        Sse::default().event("4").data("....."),
    ];
    let mut body = SseBody::new(());
    let mut wire = Vec::new();
    for event in sse_sequence.clone() {
        let frame = body
            .next_frame(Some(Ok(event)))
            .expect("frame")
            .expect("valid encoded event");
        wire.extend_from_slice(&frame);
    }
    assert!(body.next_frame(None).is_none());
    assert_eq!(decode_frame(&wire), sse_sequence.to_vec());
}

use vstd::prelude::*;

mod keep_alive;

pub use keep_alive::KeepAlive;

use crate::error::{BodyError, BoxError};
use crate::event::encode::bytes_view;
use crate::event::Sse;
use crate::model::encode_result;

verus! {

/// What polling the input stream gave.
pub enum InputPoll {
    /// Nothing yet.
    Pending,
    /// The next item, or `None` at the end of the input.
    Ready(Option<Result<Sse, BoxError>>),
}

/// What the body answers a poll with.
pub enum BodyPoll {
    /// Nothing to send yet.
    Pending,
    /// A frame to send, or `None` at the end of the body.
    Ready(Option<Result<bytes::Bytes, BodyError>>),
}

/// One decision of the body: the answer to a poll, and the interval to rearm
/// the keep-alive timer with, when it is to be rearmed.
pub struct BodyStep {
    pub poll: BodyPoll,
    pub rearm: Option<std::time::Duration>,
}

/// The frame for what the input yielded, and whether the body then ends.
pub open spec fn input_frame(
    item: Option<Result<Sse, BoxError>>,
    r: Option<Result<bytes::Bytes, BodyError>>,
    ends: bool,
) -> bool {
    match item {
        None => r is None && ends,
        Some(Err(b)) => r == Some(Err::<bytes::Bytes, BodyError>(BodyError::Stream(b))) && ends,
        Some(Ok(event)) => match encode_result(event@) {
            Ok(b) => (r matches Some(Ok(x)) && bytes_view(x) == b) && !ends,
            Err(e) => r == Some(Err::<bytes::Bytes, BodyError>(BodyError::Encode(e))) && ends,
        },
    }
}

/// Encode SSE events as HTTP data frames, optionally sending keep-alives.
///
/// Input and encoding errors are returned once as [`BodyError`], then the
/// body ends without sending further events or keep-alives.
///
/// Data may contain line endings; they are normalized to LF.
pub struct SseBody<S> {
    pub event_stream: S,
    keep_alive: Option<KeepAlive>,
    finished: bool,
}

impl<S> SseBody<S> {
    /// The input stream.
    pub closed spec fn source(&self) -> S {
        self.event_stream
    }

    /// The keep-alive configuration, if any.
    pub closed spec fn keep_alive_config(&self) -> Option<KeepAlive> {
        self.keep_alive
    }

    /// Whether the body has ended.
    pub closed spec fn finished(&self) -> bool {
        self.finished
    }

    /// A body without keep-alives.
    pub fn new(stream: S) -> (r: Self)
        ensures
            r.source() == stream,
            r.keep_alive_config() is None,
            !r.finished(),
    {
        SseBody { event_stream: stream, keep_alive: None, finished: false }
    }

    /// A body that sends keep-alives while the input is idle.
    pub fn new_keep_alive(stream: S, keep_alive: KeepAlive) -> (r: Self)
        ensures
            r.source() == stream,
            r.keep_alive_config() == Some(keep_alive),
            !r.finished(),
    {
        SseBody { event_stream: stream, keep_alive: Some(keep_alive), finished: false }
    }

    /// Configure keep-alives.
    pub fn with_keep_alive(self, keep_alive: KeepAlive) -> (r: Self)
        ensures
            r.source() == self.source(),
            r.keep_alive_config() == Some(keep_alive),
            r.finished() == self.finished(),
    {
        SseBody { event_stream: self.event_stream, keep_alive: Some(keep_alive), finished: self.finished }
    }

    /// Whether a keep-alive timer is configured.
    pub fn has_keep_alive(&self) -> (r: bool)
        ensures
            r == self.keep_alive_config() is Some,
    {
        self.keep_alive.is_some()
    }

    /// The keep-alive configuration, if any.
    pub fn keep_alive(&self) -> (r: Option<&KeepAlive>)
        ensures
            match r {
                Some(k) => self.keep_alive_config() == Some(*k),
                None => self.keep_alive_config() is None,
            },
    {
        match &self.keep_alive {
            Some(k) => Some(k),
            None => None,
        }
    }

    /// Whether the body has ended.
    pub fn is_end_stream(&self) -> (r: bool)
        ensures
            r == self.finished(),
    {
        self.finished
    }

    /// The frame for what the input stream yielded: an encoded event, or the
    /// end of the body. An error ends the body after it is returned once.
    pub fn next_frame(&mut self, item: Option<Result<Sse, BoxError>>) -> (r: Option<Result<bytes::Bytes, BodyError>>)
        ensures
            final(self).source() == old(self).source(),
            final(self).keep_alive_config() == old(self).keep_alive_config(),
            old(self).finished() ==> r is None && final(self).finished(),
            !old(self).finished() ==> input_frame(item, r, final(self).finished()),
            !old(self).finished() ==> (final(self).finished() <==> !(item matches Some(Ok(ev))
                && encode_result(ev@) is Ok)),
    {
        if self.finished {
            return None;
        }
        match item {
            None => {
                self.finished = true;
                None
            },
            Some(Err(error)) => {
                self.finished = true;
                Some(Err(BodyError::Stream(error)))
            },
            Some(Ok(event)) => match event.encode() {
                Ok(bytes) => Some(Ok(bytes)),
                Err(error) => {
                    self.finished = true;
                    Some(Err(BodyError::Encode(error)))
                },
            },
        }
    }

    /// Whether the keep-alive timer is to be polled: only while the input is
    /// pending, the body runs, and keep-alives are configured.
    pub fn wants_timer(&self, input: &InputPoll) -> (r: bool)
        ensures
            r == (!self.finished() && *input is Pending && self.keep_alive_config() is Some),
    {
        if self.finished {
            return false;
        }
        match input {
            InputPoll::Pending => self.keep_alive.is_some(),
            InputPoll::Ready(_) => false,
        }
    }

    /// Answer a poll. The input comes first: what it yielded is framed even
    /// when the keep-alive timer has fired too. A keep-alive goes out only
    /// while the input is pending and the timer has fired. Sending an event or
    /// a keep-alive rearms the timer; an error or the end does not, and after
    /// either the body ends.
    pub fn step(&mut self, input: InputPoll, timer_fired: bool) -> (r: BodyStep)
        ensures
            final(self).source() == old(self).source(),
            final(self).keep_alive_config() == old(self).keep_alive_config(),
            old(self).finished() ==> r.poll == BodyPoll::Ready(None) && r.rearm is None
                && final(self).finished(),
            !old(self).finished() ==> match input {
                InputPoll::Ready(item) => r.poll matches BodyPoll::Ready(f) && input_frame(
                    item,
                    f,
                    final(self).finished(),
                ) && (final(self).finished() <==> !(item matches Some(Ok(ev)) && encode_result(ev@) is Ok))
                    && r.rearm == (if (f matches Some(Ok(_))) && old(self).keep_alive_config() is Some {
                    Some(old(self).keep_alive_config()->0.interval_spec())
                } else {
                    None
                }),
                InputPoll::Pending => if timer_fired && old(self).keep_alive_config() is Some {
                    &&& r.poll matches BodyPoll::Ready(Some(Ok(x)))
                    &&& bytes_view(x) == old(self).keep_alive_config()->0.event_view()
                    &&& r.rearm == Some(old(self).keep_alive_config()->0.interval_spec())
                    &&& !final(self).finished()
                } else {
                    r.poll is Pending && r.rearm is None && !final(self).finished()
                },
            },
    {
        if self.finished {
            return BodyStep { poll: BodyPoll::Ready(None), rearm: None };
        }
        match input {
            InputPoll::Ready(item) => {
                let frame = self.next_frame(item);
                let sent = match &frame {
                    Some(Ok(_)) => true,
                    _ => false,
                };
                let rearm = match &self.keep_alive {
                    Some(k) => if sent {
                        Some(k.max_interval())
                    } else {
                        None
                    },
                    None => None,
                };
                BodyStep { poll: BodyPoll::Ready(frame), rearm }
            },
            InputPoll::Pending => {
                if timer_fired {
                    if let Some(k) = &self.keep_alive {
                        return BodyStep {
                            poll: BodyPoll::Ready(Some(Ok(k.event_bytes()))),
                            rearm: Some(k.max_interval()),
                        };
                    }
                }
                BodyStep { poll: BodyPoll::Pending, rearm: None }
            },
        }
    }

    /// The keep-alive frame to send while the input is idle, if keep-alives
    /// are configured and the body has not ended.
    pub fn keep_alive_frame(&self) -> (r: Option<bytes::Bytes>)
        ensures
            match r {
                Some(b) => !self.finished() && self.keep_alive_config() is Some && bytes_view(b)
                    == self.keep_alive_config()->0.event_view(),
                None => self.finished() || self.keep_alive_config() is None,
            },
    {
        if self.finished {
            return None;
        }
        match &self.keep_alive {
            Some(k) => Some(k.event_bytes()),
            None => None,
        }
    }
}

} // verus!

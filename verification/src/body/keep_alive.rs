use vstd::prelude::*;

use crate::error::EncodeError;
use crate::event::encode::{bytes_from_vec, bytes_view, encode_comment_bytes};
use crate::event::{duration_millis, duration_nanos, Sse};
use crate::model::{encode_comment, encode_result};

verus! {

/// Calls `Duration::from_secs`; the duration holds exactly `secs` seconds:
/// `secs * 1000` whole milliseconds, `secs * 10^9` nanoseconds.
#[verifier::external_body]
fn duration_from_secs(secs: u64) -> (r: std::time::Duration)
    ensures
        duration_millis(r) == secs as u128 * 1000,
        duration_nanos(r) == secs as u128 * 1_000_000_000,
{
    std::time::Duration::from_secs(secs)
}

/// Calls `Bytes::clone`; the clone holds the same bytes.
#[verifier::external_body]
fn bytes_clone(b: &bytes::Bytes) -> (r: bytes::Bytes)
    ensures
        bytes_view(r) == bytes_view(*b),
{
    b.clone()
}

/// Configure the interval between keep-alive messages and the content of
/// each message.
#[derive(Debug)]
#[must_use]
pub struct KeepAlive {
    event: bytes::Bytes,
    max_interval: std::time::Duration,
}

impl KeepAlive {
    /// The bytes sent as a keep-alive.
    pub closed spec fn event_view(&self) -> Seq<u8> {
        bytes_view(self.event)
    }

    /// The longest idle time before a keep-alive.
    pub closed spec fn interval_spec(&self) -> std::time::Duration {
        self.max_interval
    }

    /// An empty comment every 15 seconds.
    pub fn new() -> (r: Self)
        ensures
            r.event_view() == seq![58u8, 10u8, 10u8],
            duration_millis(r.interval_spec()) == 15000,
            duration_nanos(r.interval_spec()) == 15_000_000_000,
    {
        let event = bytes_from_vec(vec![58u8, 10u8, 10u8]);
        proof {
            assert(bytes_view(event) =~= seq![58u8, 10u8, 10u8]);
        }
        KeepAlive { event, max_interval: duration_from_secs(15) }
    }

    /// Customize the interval between keep-alive messages.
    pub fn interval(self, time: std::time::Duration) -> (r: Self)
        ensures
            r.event_view() == self.event_view(),
            r.interval_spec() == time,
    {
        KeepAlive { event: self.event, max_interval: time }
    }

    /// Customize the event of the keep-alive message.
    ///
    /// # Errors
    ///
    /// Returns [`EncodeError`] if the event type or id contains CR/LF, or the
    /// id contains NULL. Multiline data is allowed.
    pub fn event(self, event: Sse) -> (r: Result<Self, EncodeError>)
        ensures
            match encode_result(event@) {
                Ok(b) => r matches Ok(k) && k.event_view() == b && k.interval_spec() == self.interval_spec(),
                Err(e) => r matches Err(x) && x == e,
            },
    {
        match event.encode() {
            Ok(bytes) => Ok(KeepAlive { event: bytes, max_interval: self.max_interval }),
            Err(error) => Err(error),
        }
    }

    /// Customize the keep-alive comment. Each logical line is encoded as a comment.
    pub fn comment(self, comment: &str) -> (r: Self)
        ensures
            r.event_view() == encode_comment(comment@),
            r.interval_spec() == self.interval_spec(),
    {
        KeepAlive { event: encode_comment_bytes(comment), max_interval: self.max_interval }
    }

    /// The bytes sent as a keep-alive.
    pub fn event_bytes(&self) -> (r: bytes::Bytes)
        ensures
            bytes_view(r) == self.event_view(),
    {
        bytes_clone(&self.event)
    }

    /// The longest idle time before a keep-alive.
    pub fn max_interval(&self) -> (r: std::time::Duration)
        ensures
            r == self.interval_spec(),
    {
        self.max_interval
    }
}

impl Clone for KeepAlive {
    fn clone(&self) -> (r: Self)
        ensures
            r.event_view() == self.event_view(),
            r.interval_spec() == self.interval_spec(),
    {
        KeepAlive { event: bytes_clone(&self.event), max_interval: self.max_interval }
    }
}

impl Default for KeepAlive {
    fn default() -> (r: Self)
        ensures
            r.event_view() == seq![58u8, 10u8, 10u8],
            duration_millis(r.interval_spec()) == 15000,
            duration_nanos(r.interval_spec()) == 15_000_000_000,
    {
        Self::new()
    }
}

} // verus!

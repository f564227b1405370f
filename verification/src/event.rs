use vstd::prelude::*;

pub mod encode;

verus! {

/// The text of an optional string field.
pub open spec fn opt_text(o: Option<String>) -> Option<Seq<char>> {
    match o {
        Some(s) => Some(s@),
        None => None,
    }
}

/// The mathematical content of an event block.
pub struct SseView {
    pub event: Option<Seq<char>>,
    pub data: Option<Seq<char>>,
    pub id: Option<Seq<char>>,
    pub retry: Option<u64>,
}

impl SseView {
    /// The block with no fields.
    pub open spec fn empty() -> SseView {
        SseView { event: None, data: None, id: None, retry: None }
    }

    /// Whether the block holds at least one field.
    pub open spec fn has_fields(self) -> bool {
        self.event is Some || self.data is Some || self.id is Some || self.retry is Some
    }
}

/// A raw SSE event block. Fields are not inherited from previous blocks.
///
/// Metadata-only blocks are returned too; this type does not implement the
/// browser EventSource connection or reconnection state machine.
#[derive(Debug, PartialEq, Eq, Hash, Clone)]
pub struct Sse {
    /// Explicit event type. Must not contain CR/LF when encoded.
    pub event: Option<String>,
    /// Data joined with LF; `None` and an empty data field are distinct.
    pub data: Option<String>,
    /// Explicit id. Must not contain CR/LF/NULL when encoded.
    pub id: Option<String>,
    /// Explicit reconnection delay, in milliseconds.
    pub retry: Option<u64>,
}

impl View for Sse {
    type V = SseView;

    open spec fn view(&self) -> SseView {
        SseView {
            event: opt_text(self.event),
            data: opt_text(self.data),
            id: opt_text(self.id),
            retry: self.retry,
        }
    }
}

impl Default for Sse {
    fn default() -> (r: Self)
        ensures
            r@ == SseView::empty(),
    {
        Sse { event: None, data: None, id: None, retry: None }
    }
}

/// The number of whole milliseconds in a duration, as `Duration::as_millis` reports it.
pub uninterp spec fn duration_millis(d: std::time::Duration) -> u128;

/// The number of nanoseconds in a duration, as `Duration::as_nanos` reports
/// it; it fixes the duration's whole value.
pub uninterp spec fn duration_nanos(d: std::time::Duration) -> u128;

/// Calls `Duration::as_millis`; its result is named `duration_millis`.
#[verifier::external_body]
fn duration_as_millis(d: std::time::Duration) -> (r: u128)
    ensures
        r == duration_millis(d),
{
    d.as_millis()
}

/// A millisecond count saturated to the range of `u64`.
pub open spec fn saturate_millis(millis: u128) -> u64 {
    if millis > u64::MAX as u128 {
        u64::MAX
    } else {
        millis as u64
    }
}

impl Sse {
    /// Whether the block contains an explicit event field (including an empty one).
    pub fn is_event(&self) -> (r: bool)
        ensures
            r == (self.event is Some),
    {
        self.event.is_some()
    }

    /// Whether the block has no explicit event field.
    pub fn is_message(&self) -> (r: bool)
        ensures
            r == (self.event is None),
    {
        self.event.is_none()
    }

    /// Set the event type.
    pub fn event(self, event: &str) -> (r: Self)
        ensures
            r@ == (SseView { event: Some(event@), ..self@ }),
    {
        Sse { event: Some(event.to_owned()), ..self }
    }

    /// Set data. Encoding normalizes CRLF and CR to LF, preserving empty lines.
    pub fn data(self, data: &str) -> (r: Self)
        ensures
            r@ == (SseView { data: Some(data@), ..self@ }),
    {
        Sse { data: Some(data.to_owned()), ..self }
    }

    /// Set the id.
    pub fn id(self, id: &str) -> (r: Self)
        ensures
            r@ == (SseView { id: Some(id@), ..self@ }),
    {
        Sse { id: Some(id.to_owned()), ..self }
    }

    /// Set the reconnection delay in milliseconds.
    pub fn retry(self, retry: u64) -> (r: Self)
        ensures
            r@ == (SseView { retry: Some(retry), ..self@ }),
    {
        Sse { retry: Some(retry), ..self }
    }

    /// Set the reconnection delay from a millisecond count, saturating at `u64::MAX`.
    pub fn retry_millis(self, millis: u128) -> (r: Self)
        ensures
            r@ == (SseView { retry: Some(saturate_millis(millis)), ..self@ }),
            millis <= u64::MAX ==> r.retry == Some(millis as u64),
            millis > u64::MAX ==> r.retry == Some(u64::MAX),
    {
        let retry: u64 = if millis > 0xffff_ffff_ffff_ffffu128 {
            0xffff_ffff_ffff_ffffu64
        } else {
            millis as u64
        };
        Sse { retry: Some(retry), ..self }
    }

    /// Set the reconnection delay from a duration, saturating at `u64::MAX` milliseconds.
    pub fn retry_duration(self, retry: std::time::Duration) -> (r: Self)
        ensures
            r@ == (SseView { retry: Some(saturate_millis(duration_millis(retry))), ..self@ }),
            duration_millis(retry) <= u64::MAX ==> r.retry == Some(duration_millis(retry) as u64),
            duration_millis(retry) > u64::MAX ==> r.retry == Some(u64::MAX),
    {
        let millis = duration_as_millis(retry);
        self.retry_millis(millis)
    }
}

} // verus!

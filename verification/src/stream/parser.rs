use vstd::prelude::*;
use vstd::utf8::{decode_utf8, valid_utf8};

pub mod data;
pub mod scan;

use data::{release_scratch, DataBuffer};
use scan::{find_data_line_end, find_line_end, line_end_found, utf8_error, validate_utf8};

use crate::error::Error;
use crate::event::{opt_text, Sse, SseView};
use crate::model::{
    data_colon, decimal, emits, first_colon, interpret_line, is_digit, is_digits, is_line_end, join_data,
    lemma_decimal_prefix, lemma_first_colon, lemma_run_after_cr, lemma_run_one, lemma_run_plain,
    lemma_run_split, lemma_strip_bom_noop, name_data, name_event, name_id, name_retry, no_line_end,
    run, step, strip_bom, strip_space, complete_line, field_value, Emit, ReadState,
};

verus! {

/// The reader's output for a decoder error.
pub open spec fn error_emit(e: Error) -> Emit {
    match e {
        Error::Utf8Parse(x) => Emit::Utf8Error(x),
        _ => Emit::UnknownField,
    }
}

/// The reader's output for an optional event.
pub open spec fn event_emit(ev: Option<Sse>) -> Option<Emit> {
    match ev {
        Some(e) => Some(Emit::Event(e@)),
        None => None,
    }
}

/// The fields of the block under construction.
pub struct EventBuilder {
    event: Option<String>,
    id: Option<String>,
    retry: Option<u64>,
    data: DataBuffer,
    has_fields: bool,
}

impl EventBuilder {
    pub closed spec fn view(&self) -> SseView {
        SseView {
            event: opt_text(self.event),
            data: self.data.lines(),
            id: opt_text(self.id),
            retry: self.retry,
        }
    }

    pub closed spec fn fragment(&self) -> Seq<u8> {
        self.data.fragment()
    }

    pub closed spec fn wf(&self) -> bool {
        &&& self.has_fields == self.view().has_fields()
    }

    fn new() -> (r: Self)
        ensures
            r.wf(),
            r.view() == SseView::empty(),
            r.fragment() == Seq::<u8>::empty(),
    {
        EventBuilder { event: None, id: None, retry: None, data: DataBuffer::new(), has_fields: false }
    }

    /// Hand out the block and start an empty one.
    fn finish(&mut self) -> (r: Sse)
        requires
            old(self).wf(),
        ensures
            final(self).wf(),
            r@ == old(self).view(),
            final(self).view() == SseView::empty(),
            final(self).fragment() == Seq::<u8>::empty(),
    {
        self.has_fields = false;
        let event = self.event.take();
        let id = self.id.take();
        let retry = self.retry.take();
        let data = self.data.take();
        Sse { event, data, id, retry }
    }

    /// Hand out the block if it holds a field.
    fn dispatch(&mut self) -> (r: Option<Sse>)
        requires
            old(self).wf(),
            old(self).fragment() == Seq::<u8>::empty(),
        ensures
            final(self).wf(),
            final(self).fragment() == Seq::<u8>::empty(),
            interpret_line(false, old(self).view(), Seq::<u8>::empty()) == (
                final(self).view(),
                event_emit(r),
            ),
    {
        if !self.has_fields {
            return None;
        }
        Some(self.finish())
    }

    /// Append a complete data line.
    ///
    /// # Errors
    /// Returns an error for an invalid UTF-8 data value.
    fn push_data_line(&mut self, value: &[u8]) -> (r: Result<(), Error>)
        requires
            old(self).wf(),
        ensures
            final(self).wf(),
            r is Ok <==> valid_utf8(value@),
            r is Ok ==> final(self).view() == (SseView {
                data: Some(join_data(old(self).view().data, decode_utf8(value@))),
                ..old(self).view()
            }) && final(self).fragment() == Seq::<u8>::empty(),
            r is Err ==> final(self).view() == old(self).view() && final(self).fragment() == old(
                self,
            ).fragment(),
            r matches Err(e) ==> e == Error::Utf8Parse(utf8_error(value@)),
    {
        self.data.push_line(value)?;
        self.has_fields = true;
        Ok(())
    }

    /// Append bytes to the unfinished data line.
    fn push_data_fragment(&mut self, bytes: &[u8])
        requires
            old(self).wf(),
        ensures
            final(self).wf(),
            final(self).view() == old(self).view(),
            final(self).fragment() == old(self).fragment() + bytes@,
    {
        self.data.push_fragment(bytes);
    }

    /// Complete the unfinished data line.
    ///
    /// # Errors
    /// Returns an error for an invalid UTF-8 data value.
    fn finish_data_line(&mut self) -> (r: Result<(), Error>)
        requires
            old(self).wf(),
        ensures
            final(self).wf(),
            final(self).fragment() == Seq::<u8>::empty(),
            r is Ok <==> valid_utf8(old(self).fragment()),
            r is Ok ==> final(self).view() == (SseView {
                data: Some(join_data(old(self).view().data, decode_utf8(old(self).fragment()))),
                ..old(self).view()
            }),
            r matches Err(e) ==> e == Error::Utf8Parse(utf8_error(old(self).fragment())),
    {
        self.data.finish_line()?;
        self.has_fields = true;
        Ok(())
    }
}

/// Whether `s[start..end]` equals `name`.
fn bytes_equal(s: &[u8], start: usize, end: usize, name: &Vec<u8>) -> (r: bool)
    requires
        start <= end <= s.len(),
    ensures
        r == (s@.subrange(start as int, end as int) == name@),
{
    if end - start != name.len() {
        return false;
    }
    let mut i: usize = 0;
    while i < name.len()
        invariant
            end - start == name.len(),
            start <= end <= s.len(),
            i <= name.len(),
            forall|j: int| 0 <= j < i ==> s@[start + j] == name@[j],
        decreases name.len() - i,
    {
        if s[start + i] != name[i] {
            assert(s@.subrange(start as int, end as int)[i as int] != name@[i as int]);
            return false;
        }
        i = i + 1;
    }
    assert(s@.subrange(start as int, end as int) =~= name@);
    true
}

/// Whether `v` holds the byte `b`.
pub(crate) fn contains_byte(v: &[u8], b: u8) -> (r: bool)
    ensures
        r == v@.contains(b),
{
    let mut i: usize = 0;
    while i < v.len()
        invariant
            i <= v.len(),
            forall|j: int| 0 <= j < i ==> v@[j] != b,
        decreases v.len() - i,
    {
        if v[i] == b {
            assert(v@[i as int] == b);
            return true;
        }
        i = i + 1;
    }
    false
}

/// A retry value: ASCII digits whose value fits in `u64`.
fn parse_retry(v: &[u8]) -> (r: Option<u64>)
    ensures
        r == (if is_digits(v@) && decimal(v@) <= u64::MAX {
            Some(decimal(v@) as u64)
        } else {
            None
        }),
{
    if v.len() == 0 {
        return None;
    }
    let mut value: u64 = 0;
    let mut i: usize = 0;
    while i < v.len()
        invariant
            i <= v.len(),
            v.len() > 0,
            forall|j: int| 0 <= j < i ==> is_digit(v@[j]),
            value == decimal(v@.take(i as int)),
        decreases v.len() - i,
    {
        let b = v[i];
        if b < 48u8 || b > 57u8 {
            assert(!is_digit(v@[i as int]));
            return None;
        }
        assert(v@.take(i + 1).drop_last() =~= v@.take(i as int));
        assert(v@.take(i + 1).last() == b);
        match value.checked_mul(10) {
            Some(tens) => match tens.checked_add((b - 48u8) as u64) {
                Some(next) => {
                    value = next;
                },
                None => {
                    proof {
                        lemma_decimal_prefix(v@, i + 1);
                    }
                    return None;
                },
            },
            None => {
                proof {
                    lemma_decimal_prefix(v@, i + 1);
                }
                return None;
            },
        }
        i = i + 1;
    }
    assert(v@.take(v.len() as int) =~= v@);
    Some(value)
}

fn name_bytes_data() -> (r: Vec<u8>)
    ensures
        r@ == name_data(),
{
    let r = vec![100u8, 97u8, 116u8, 97u8];
    assert(r@ =~= name_data());
    r
}

fn name_bytes_event() -> (r: Vec<u8>)
    ensures
        r@ == name_event(),
{
    let r = vec![101u8, 118u8, 101u8, 110u8, 116u8];
    assert(r@ =~= name_event());
    r
}

fn name_bytes_id() -> (r: Vec<u8>)
    ensures
        r@ == name_id(),
{
    let r = vec![105u8, 100u8];
    assert(r@ =~= name_id());
    r
}

fn name_bytes_retry() -> (r: Vec<u8>)
    ensures
        r@ == name_retry(),
{
    let r = vec![114u8, 101u8, 116u8, 114u8, 121u8];
    assert(r@ =~= name_retry());
    r
}

/// Apply one complete line, `line[start..]`, to the block by the SSE field
/// rules.
///
/// # Errors
/// Returns an error for invalid UTF-8 in a recognized field value, or for an
/// unknown field name when `strict`.
fn apply_line(event: &mut EventBuilder, strict: bool, line: &[u8], start: usize) -> (r: Result<Option<Sse>, Error>)
    requires
        old(event).wf(),
        old(event).fragment() == Seq::<u8>::empty(),
        start <= line.len(),
    ensures
        final(event).wf(),
        final(event).fragment() == Seq::<u8>::empty(),
        r matches Err(e) ==> (e is Utf8Parse || e is UnknownField),
        ({
            let (block, out) = interpret_line(strict, old(event).view(), line@.skip(start as int));
            match r {
                Ok(ev) => final(event).view() == block && out == event_emit(ev),
                Err(e) => out == Some(error_emit(e)),
            }
        }),
{
    let ghost l = line@.skip(start as int);
    if start == line.len() {
        assert(l.len() == 0);
        return Ok(event.dispatch());
    }
    let len = line.len();
    let mut k = start;
    while k < len && line[k] != 58u8
        invariant
            start <= k <= len == line.len(),
            forall|j: int| start <= j < k ==> line@[j] != 58u8,
        decreases len - k,
    {
        k = k + 1;
    }
    proof {
        lemma_first_colon(l, k - start);
        assert(l.take(k - start) =~= line@.subrange(start as int, k as int));
    }
    let mut value_start = len;
    if k < len {
        value_start = k + 1;
        if value_start < len && line[value_start] == 32u8 {
            value_start = value_start + 1;
        }
    }
    let value = &line[value_start..len];
    proof {
        if k < len {
            assert(l.skip(k - start + 1) =~= line@.subrange(k + 1, len as int));
        }
        assert(field_value(l) =~= value@);
    }
    if bytes_equal(line, start, k, &name_bytes_data()) {
        event.push_data_line(value)?;
        return Ok(None);
    }
    if bytes_equal(line, start, k, &name_bytes_event()) {
        let text = match validate_utf8(value) {
            Ok(text) => text,
            Err(error) => return Err(Error::Utf8Parse(error)),
        };
        event.event = Some(text.to_owned());
        event.has_fields = true;
        return Ok(None);
    }
    if bytes_equal(line, start, k, &name_bytes_id()) {
        if contains_byte(value, 0u8) {
            return Ok(None);
        }
        let text = match validate_utf8(value) {
            Ok(text) => text,
            Err(error) => return Err(Error::Utf8Parse(error)),
        };
        event.id = Some(text.to_owned());
        event.has_fields = true;
        return Ok(None);
    }
    if bytes_equal(line, start, k, &name_bytes_retry()) {
        if let Err(error) = validate_utf8(value) {
            return Err(Error::Utf8Parse(error));
        }
        if let Some(retry) = parse_retry(value) {
            event.retry = Some(retry);
            event.has_fields = true;
        }
        return Ok(None);
    }
    if k == start {
        // A line that starts with a colon is a comment.
        return Ok(None);
    }
    if strict {
        return Err(Error::UnknownField);
    }
    Ok(None)
}

} // verus!

verus! {

/// How the reader is placed inside the current line.
#[derive(Clone, Copy)]
enum LineMode {
    /// At the start of a new line.
    Start,
    /// Inside a line whose bytes are kept in `pending_line`.
    Buffered,
    /// Inside a data line whose `data:` prefix has been read; its value goes
    /// straight to the data buffer. The flag: one leading space may still follow.
    Data { needs_leading_space_check: bool },
    /// Inside a comment line, whose bytes are skipped.
    Comment,
}

/// An event block and the number of input bytes read to complete it.
pub struct ParsedEvent {
    pub consumed: usize,
    pub event: Sse,
}

/// What a line handler achieved on `bytes[pos..]`: on success it read
/// `bytes[pos..p]` and handed out at most an event; on failure the reader
/// faults within the remaining bytes.
pub open spec fn progressed(
    strict: bool,
    st0: ReadState,
    bytes: Seq<u8>,
    pos: int,
    r: Result<(usize, Option<Sse>), Error>,
    st1: ReadState,
) -> bool {
    match r {
        Ok((p, ev)) => {
            &&& pos < p <= bytes.len()
            &&& run(strict, st0, bytes.subrange(pos, p as int)) == (st1, emits(event_emit(ev)))
            &&& ev is Some ==> run(strict, st0, bytes.subrange(pos, p - 1)).1 == Seq::<Emit>::empty()
        },
        Err(e) => (e is Utf8Parse || e is UnknownField) && exists|k: int|
            pos <= k <= bytes.len() && #[trigger] run(strict, st0, bytes.subrange(pos, k)).1 == seq![
                error_emit(e),
            ],
    }
}

/// `c` bytes of `bytes` complete a block: the block is handed out at the
/// byte `c - 1`, or at the CR of a CRLF that ends at `c - 1`; an LF right after
/// the CR that hands out a block is read with it.
pub open spec fn event_end(strict: bool, st: ReadState, bytes: Seq<u8>, c: int) -> bool {
    ||| {
        &&& run(strict, st, bytes.take(c - 1)).1 == Seq::<Emit>::empty()
        &&& !(bytes[c - 1] == 13u8 && c < bytes.len() && bytes[c] == 10u8)
    }
    ||| {
        &&& c >= 2
        &&& bytes[c - 2] == 13u8
        &&& bytes[c - 1] == 10u8
        &&& run(strict, st, bytes.take(c - 2)).1 == Seq::<Emit>::empty()
    }
}

/// After a byte, the reader is after a CR exactly when that byte is CR.
proof fn lemma_after_cr_last(strict: bool, st: ReadState, bytes: Seq<u8>)
    requires
        bytes.len() > 0,
    ensures
        run(strict, st, bytes).0.after_cr == (bytes.last() == 13u8),
{
}

/// Reading `bytes[pos..p]`, none of them a line ending, extends the line.
proof fn lemma_plain_to(strict: bool, st: ReadState, bytes: Seq<u8>, pos: int, p: int)
    requires
        0 <= pos < p <= bytes.len(),
        no_line_end(bytes.subrange(pos, p)),
    ensures
        run(strict, st, bytes.subrange(pos, p)) == (
            ReadState { line: st.line + bytes.subrange(pos, p), after_cr: false, ..st },
            Seq::<Emit>::empty(),
        ),
{
    lemma_run_plain(strict, st, bytes.subrange(pos, p));
}

/// Reading `bytes[pos..=e]`, where `bytes[e]` ends the line, completes it.
proof fn lemma_complete_at(strict: bool, st: ReadState, bytes: Seq<u8>, pos: int, e: int)
    requires
        0 <= pos <= e < bytes.len(),
        no_line_end(bytes.subrange(pos, e)),
        is_line_end(bytes[e]),
        st.after_cr ==> bytes[pos] != 10u8,
    ensures
        ({
            let full = ReadState { line: st.line + bytes.subrange(pos, e), after_cr: false, ..st };
            let (block, out) = complete_line(strict, full);
            run(strict, st, bytes.subrange(pos, e + 1)) == (
                ReadState { line: seq![], after_cr: bytes[e] == 13u8, first_line: false, block },
                emits(out),
            )
        }),
        run(strict, st, bytes.subrange(pos, e)).1 == Seq::<Emit>::empty(),
{
    if e > pos {
        lemma_run_plain(strict, st, bytes.subrange(pos, e));
    } else {
        assert(bytes.subrange(pos, e) =~= Seq::<u8>::empty());
    }
    let stn = ReadState { after_cr: false, ..st };
    if st.after_cr {
        lemma_run_after_cr(strict, st, bytes.subrange(pos, e + 1));
    } else {
        assert(stn == st);
    }
    lemma_run_split(strict, stn, bytes, pos, e, e + 1);
    lemma_run_plain(strict, stn, bytes.subrange(pos, e));
    let full = ReadState { line: st.line + bytes.subrange(pos, e), after_cr: false, ..st };
    assert(ReadState { line: stn.line + bytes.subrange(pos, e), after_cr: stn.after_cr && bytes.subrange(pos, e).len() == 0, ..stn } == full);
    assert(bytes.subrange(e, e + 1) =~= seq![bytes[e]]);
    lemma_run_one(strict, full, bytes[e]);
    assert(Seq::<Emit>::empty() + emits(step(strict, full, bytes[e]).1) =~= emits(step(strict, full, bytes[e]).1));
}

/// Neither part holds a line ending, so neither does the whole.
proof fn lemma_no_line_end_concat(a: Seq<u8>, b: Seq<u8>)
    requires
        no_line_end(a),
        no_line_end(b),
    ensures
        no_line_end(a + b),
{
    assert forall|i: int| 0 <= i < (a + b).len() implies !is_line_end(#[trigger] (a + b)[i]) by {
        if i < a.len() {
            assert((a + b)[i] == a[i]);
        } else {
            assert((a + b)[i] == b[i - a.len()]);
        }
    }
}

/// A data line read so far as `line0`, with `frag0` in the data buffer,
/// continued by `seg`; `skip` is the leading space dropped from `seg`.
proof fn lemma_data_continue(line0: Seq<u8>, frag0: Seq<u8>, needs: bool, seg: Seq<u8>, skip: int)
    requires
        line0.len() >= 5,
        line0.take(5) == data_colon(),
        no_line_end(line0),
        no_line_end(seg),
        needs ==> line0.len() == 5 && frag0 == Seq::<u8>::empty(),
        !needs ==> line0.len() > 5 && strip_space(line0.skip(5)) == frag0,
        skip == (if needs && seg.len() > 0 && seg[0] == 32u8 {
            1int
        } else {
            0int
        }),
    ensures
        ({
            let line = line0 + seg;
            &&& no_line_end(line)
            &&& line.take(5) == data_colon()
            &&& strip_space(line.skip(5)) == frag0 + seg.skip(skip)
            &&& strip_bom(line) == line
            &&& crate::model::field_name(line) == name_data()
            &&& field_value(line) == frag0 + seg.skip(skip)
        }),
{
    let line = line0 + seg;
    lemma_no_line_end_concat(line0, seg);
    assert(line.take(5) =~= line0.take(5));
    let x = line0.skip(5);
    assert(line.skip(5) =~= x + seg);
    if needs {
        assert(x.len() == 0);
        assert(x + seg =~= seg);
        if skip == 1 {
            assert(strip_space(seg) =~= seg.skip(1));
        } else {
            assert(seg.skip(0) =~= seg);
        }
        assert(frag0 + seg.skip(skip) =~= seg.skip(skip));
    } else {
        assert(seg.skip(0) =~= seg);
        assert(strip_space(x + seg) =~= strip_space(x) + seg);
    }
    assert(line[0] == 100u8 && line[1] == 97u8 && line[2] == 116u8 && line[3] == 97u8 && line[4] == 58u8) by {
        assert(line[0] == line.take(5)[0]);
        assert(line[1] == line.take(5)[1]);
        assert(line[2] == line.take(5)[2]);
        assert(line[3] == line.take(5)[3]);
        assert(line[4] == line.take(5)[4]);
    }
    lemma_strip_bom_noop(line);
    lemma_first_colon(line, 4);
    assert(crate::model::field_name(line) =~= name_data());
}

/// Where reading `bytes[pos..]` stops while the pending `line` may still
/// become `data:`: after `data:` is complete, after the whole chunk when it
/// continues `data:` without completing it, and at `pos` when the line cannot
/// become `data:`.
spec fn data_prefix_end(line: Seq<u8>, bytes: Seq<u8>, pos: int) -> int {
    let plen = line.len() as int;
    let missing = 5 - plen;
    if plen < 5 && line == data_colon().subrange(0, plen) {
        if bytes.len() - pos < missing {
            if bytes.subrange(pos, bytes.len() as int) == data_colon().subrange(plen, plen + (bytes.len() - pos)) {
                bytes.len() as int
            } else {
                pos
            }
        } else if bytes.subrange(pos, pos + missing) == data_colon().subrange(plen, 5) {
            pos + missing
        } else {
            pos
        }
    } else {
        pos
    }
}

/// The bytes of `data:`.
fn data_colon_bytes() -> (r: Vec<u8>)
    ensures
        r@ == data_colon(),
{
    let r = vec![100u8, 97u8, 116u8, 97u8, 58u8];
    assert(r@ =~= data_colon());
    r
}

/// Whether `s[start..end]` equals `data:` from `offset` on.
fn matches_data_colon(s: &[u8], start: usize, end: usize, offset: usize) -> (r: bool)
    requires
        start <= end <= s.len(),
        offset + (end - start) <= 5,
    ensures
        r == (s@.subrange(start as int, end as int) == data_colon().subrange(
            offset as int,
            offset + (end - start),
        )),
{
    let colon = data_colon_bytes();
    let mut i: usize = 0;
    while i < end - start
        invariant
            start <= end <= s.len(),
            offset + (end - start) <= 5,
            colon@ == data_colon(),
            i <= end - start,
            forall|j: int| 0 <= j < i ==> #[trigger] s@[start + j] == data_colon()[offset + j],
        decreases end - start - i,
    {
        if s[start + i] != colon[offset + i] {
            assert(s@.subrange(start as int, end as int)[i as int] != data_colon().subrange(
                offset as int,
                offset + (end - start),
            )[i as int]);
            return false;
        }
        i = i + 1;
    }
    assert forall|j: int| 0 <= j < end - start implies s@.subrange(start as int, end as int)[j]
        == data_colon().subrange(offset as int, offset + (end - start))[j] by {
        assert(s@[start + j] == data_colon()[offset + j]);
    }
    assert(s@.subrange(start as int, end as int) =~= data_colon().subrange(
        offset as int,
        offset + (end - start),
    ));
    true
}

/// `data:` holds no line ending.
proof fn lemma_data_colon_plain(s: Seq<u8>, o: int)
    requires
        0 <= o,
        o + s.len() <= 5,
        s == data_colon().subrange(o, o + s.len()),
    ensures
        no_line_end(s),
{
    assert forall|i: int| 0 <= i < s.len() implies !is_line_end(#[trigger] s[i]) by {
        assert(s[i] == data_colon()[o + i]);
    }
}

/// A line `bytes[pos..e]` that starts with `data:`: its name and value.
proof fn lemma_data_line(bytes: Seq<u8>, pos: int, e: int, vs: int)
    requires
        0 <= pos,
        pos + 5 <= e <= bytes.len(),
        bytes.subrange(pos, pos + 5) == data_colon(),
        no_line_end(bytes.subrange(pos + 5, e)),
        vs == (if pos + 5 < e && bytes[pos + 5] == 32u8 {
            pos + 6
        } else {
            pos + 5
        }),
    ensures
        ({
            let line = bytes.subrange(pos, e);
            &&& no_line_end(line)
            &&& strip_bom(line) == line
            &&& crate::model::field_name(line) == name_data()
            &&& field_value(line) == bytes.subrange(vs, e)
            &&& line.take(5) == data_colon()
            &&& line.skip(5) == bytes.subrange(pos + 5, e)
            &&& strip_space(line.skip(5)) == bytes.subrange(vs, e)
        }),
{
    let line = bytes.subrange(pos, e);
    let head = bytes.subrange(pos, pos + 5);
    let tail = bytes.subrange(pos + 5, e);
    assert(data_colon().subrange(0, 5) =~= data_colon());
    lemma_data_colon_plain(head, 0);
    assert(line =~= head + tail);
    assert forall|i: int| 0 <= i < line.len() implies !is_line_end(#[trigger] line[i]) by {
        if i < 5 {
            assert(line[i] == head[i]);
        } else {
            assert(line[i] == tail[i - 5]);
        }
    }
    assert(line.take(5) =~= data_colon());
    assert(line[0] == 100u8 && line[1] == 97u8 && line[2] == 116u8 && line[3] == 97u8 && line[4] == 58u8) by {
        assert(line[0] == line.take(5)[0]);
        assert(line[1] == line.take(5)[1]);
        assert(line[2] == line.take(5)[2]);
        assert(line[3] == line.take(5)[3]);
        assert(line[4] == line.take(5)[4]);
    }
    lemma_strip_bom_noop(line);
    lemma_first_colon(line, 4);
    assert(crate::model::field_name(line) =~= name_data());
    assert(line.skip(5) =~= tail);
    assert(strip_space(tail) =~= bytes.subrange(vs, e));
}

} // verus!

verus! {

/// The incremental SSE line parser. It reads input in chunks of any size and
/// stays in step with the reader of `model`, whatever the chunk boundaries.
pub struct Parser {
    event: EventBuilder,
    mode: LineMode,
    pending_line: Vec<u8>,
    skip_leading_lf: bool,
    first_line: bool,
    strict: bool,
    state: Ghost<ReadState>,
}

impl Parser {
    /// The reader state of the bytes read so far.
    pub closed spec fn read_state(&self) -> ReadState {
        self.state@
    }

    /// Whether unknown field names are rejected.
    pub closed spec fn is_strict(&self) -> bool {
        self.strict
    }

    closed spec fn wf_loose(&self) -> bool {
        let st = self.state@;
        &&& self.event.wf()
        &&& self.event.view() == st.block
        &&& no_line_end(st.line)
        &&& (st.after_cr ==> self.mode is Start)
        &&& (!(self.mode is Buffered) ==> self.pending_line@.len() == 0)
        &&& (!(self.mode is Data) ==> self.event.fragment() == Seq::<u8>::empty())
        &&& match self.mode {
            LineMode::Start => st.line.len() == 0 && self.first_line == st.first_line,
            LineMode::Buffered => {
                &&& st.line == self.pending_line@
                &&& st.line.len() > 0
                &&& self.first_line == st.first_line
            },
            LineMode::Data { needs_leading_space_check } => {
                &&& st.line.len() >= 5
                &&& st.line.take(5) == data_colon()
                &&& !self.first_line
                &&& needs_leading_space_check ==> st.line.len() == 5 && self.event.fragment()
                    == Seq::<u8>::empty()
                &&& !needs_leading_space_check ==> st.line.len() > 5 && strip_space(st.line.skip(5))
                    == self.event.fragment()
            },
            LineMode::Comment => st.line.len() > 0 && st.line[0] == 58u8 && !self.first_line,
        }
    }

    /// The parser's fields agree with its reader state.
    pub closed spec fn wf(&self) -> bool {
        &&& self.wf_loose()
        &&& self.skip_leading_lf == self.state@.after_cr
    }

    /// A parser at the start of a stream.
    pub fn new(strict: bool) -> (r: Self)
        ensures
            r.wf(),
            r.read_state() == ReadState::initial(),
            r.is_strict() == strict,
    {
        Parser {
            event: EventBuilder::new(),
            mode: LineMode::Start,
            pending_line: Vec::new(),
            skip_leading_lf: false,
            first_line: true,
            strict,
            state: Ghost(ReadState::initial()),
        }
    }

    /// Interpret a complete line, removing a BOM from the first line.
    ///
    /// # Errors
    /// Returns an error for invalid UTF-8 in a recognized field value or an
    /// unknown field in strict mode.
    fn parse_line(&mut self, line: &[u8]) -> (r: Result<Option<Sse>, Error>)
        requires
            old(self).event.wf(),
            old(self).event.fragment() == Seq::<u8>::empty(),
        ensures
            final(self).event.wf(),
            final(self).event.fragment() == Seq::<u8>::empty(),
            !final(self).first_line,
            final(self).strict == old(self).strict,
            final(self).mode == old(self).mode,
            final(self).pending_line == old(self).pending_line,
            final(self).skip_leading_lf == old(self).skip_leading_lf,
            final(self).state == old(self).state,
            r matches Err(e) ==> (e is Utf8Parse || e is UnknownField),
            ({
                let l = if old(self).first_line {
                    strip_bom(line@)
                } else {
                    line@
                };
                let (block, out) = interpret_line(old(self).strict, old(self).event.view(), l);
                match r {
                    Ok(ev) => final(self).event.view() == block && out == event_emit(ev),
                    Err(e) => out == Some(error_emit(e)),
                }
            }),
    {
        let mut start: usize = 0;
        if self.first_line {
            self.first_line = false;
            if line.len() >= 3 && line[0] == 0xEFu8 && line[1] == 0xBBu8 && line[2] == 0xBFu8 {
                start = 3;
            }
        }
        proof {
            if start == 0 {
                assert(line@.skip(0) =~= line@);
            }
        }
        apply_line(&mut self.event, self.strict, line, start)
    }

    /// Read a new line that starts with a colon: a comment.
    fn consume_comment_line(&mut self, bytes: &[u8], pos: usize) -> (r: Result<(usize, Option<Sse>), Error>)
        requires
            old(self).wf_loose(),
            !old(self).skip_leading_lf,
            old(self).mode is Start,
            pos < bytes.len(),
            bytes@[pos as int] == 58u8,
        ensures
            r is Ok,
            final(self).wf(),
            final(self).strict == old(self).strict,
            progressed(old(self).strict, old(self).state@, bytes@, pos as int, r, final(self).state@),
    {
        let ghost st0 = self.state@;
        self.first_line = false;
        match find_line_end(bytes, pos) {
            None => {
                self.mode = LineMode::Comment;
                proof {
                    lemma_plain_to(self.strict, st0, bytes@, pos as int, bytes.len() as int);
                }
                self.state = Ghost(ReadState {
                    line: st0.line + bytes@.subrange(pos as int, bytes.len() as int),
                    after_cr: false,
                    ..st0
                });
                Ok((bytes.len(), None))
            },
            Some(e) => {
                let ghost line = bytes@.subrange(pos as int, e as int);
                proof {
                    lemma_complete_at(self.strict, st0, bytes@, pos as int, e as int);
                    let full = ReadState { line: st0.line + line, after_cr: false, ..st0 };
                    assert(st0.line + line =~= line);
                    lemma_strip_bom_noop(line);
                    lemma_first_colon(line, 0);
                    assert(crate::model::field_name(line).len() == 0);
                }
                self.skip_leading_lf = bytes[e] == 13u8;
                self.state = Ghost(ReadState {
                    line: seq![],
                    after_cr: bytes@[e as int] == 13u8,
                    first_line: false,
                    block: st0.block,
                });
                Ok((e + 1, None))
            },
        }
    }
}

impl Parser {
    /// Read a new line that starts with `data:`; its value is appended to the
    /// data buffer without buffering the line.
    fn parse_data_line(&mut self, bytes: &[u8], pos: usize) -> (r: Result<(usize, Option<Sse>), Error>)
        requires
            old(self).wf_loose(),
            !old(self).skip_leading_lf,
            old(self).mode is Start,
            pos + 5 <= bytes.len(),
            bytes@.subrange(pos as int, pos + 5) == data_colon(),
        ensures
            r is Ok ==> final(self).wf(),
            final(self).strict == old(self).strict,
            progressed(old(self).strict, old(self).state@, bytes@, pos as int, r, final(self).state@),
    {
        let ghost st0 = self.state@;
        let ghost strict = self.strict;
        let len = bytes.len();
        self.first_line = false;
        let value_start = pos + 5;
        match find_data_line_end(bytes, value_start) {
            None => {
                let mut frag_start = value_start;
                if frag_start < len && bytes[frag_start] == 32u8 {
                    frag_start = frag_start + 1;
                }
                self.event.push_data_fragment(&bytes[frag_start..len]);
                self.mode = LineMode::Data { needs_leading_space_check: value_start == len };
                let ghost line = bytes@.subrange(pos as int, len as int);
                proof {
                    lemma_data_line(bytes@, pos as int, len as int, frag_start as int);
                    lemma_plain_to(strict, st0, bytes@, pos as int, len as int);
                    assert(st0.line + line =~= line);
                    assert(Seq::<u8>::empty() + bytes@.subrange(frag_start as int, len as int)
                        =~= bytes@.subrange(frag_start as int, len as int));
                }
                self.state = Ghost(ReadState { line, after_cr: false, ..st0 });
                Ok((len, None))
            },
            Some(e) => {
                let mut vs = value_start;
                if vs < e && bytes[vs] == 32u8 {
                    vs = vs + 1;
                }
                let ghost line = bytes@.subrange(pos as int, e as int);
                proof {
                    lemma_data_line(bytes@, pos as int, e as int, vs as int);
                    lemma_complete_at(strict, st0, bytes@, pos as int, e as int);
                    assert(st0.line + line =~= line);
                }
                if let Err(err) = self.event.push_data_line(&bytes[vs..e]) {
                    proof {
                        assert(run(strict, st0, bytes@.subrange(pos as int, e + 1)).1 == seq![error_emit(err)]);
                    }
                    return Err(err);
                }
                self.finish_data_fast(bytes, pos, e, Ghost(st0))
            },
        }
    }

    /// After a data line ended at `bytes[e]`: an empty LF line right after an
    /// LF completes the event at once.
    fn finish_data_fast(&mut self, bytes: &[u8], pos: usize, e: usize, st0: Ghost<ReadState>) -> (r: Result<(usize, Option<Sse>), Error>)
        requires
            old(self).event.wf(),
            old(self).event.fragment() == Seq::<u8>::empty(),
            old(self).pending_line@.len() == 0,
            old(self).mode is Start,
            !old(self).first_line,
            !old(self).skip_leading_lf,
            pos <= e < bytes.len(),
            is_line_end(bytes@[e as int]),
            run(old(self).strict, st0@, bytes@.subrange(pos as int, e + 1)) == (
                ReadState {
                    line: seq![],
                    after_cr: bytes@[e as int] == 13u8,
                    first_line: false,
                    block: old(self).event.view(),
                },
                Seq::<Emit>::empty(),
            ),
            old(self).event.view().has_fields(),
        ensures
            r is Ok,
            final(self).wf(),
            final(self).strict == old(self).strict,
            progressed(old(self).strict, st0@, bytes@, pos as int, r, final(self).state@),
    {
        let ghost strict = self.strict;
        let ghost st1 = ReadState {
            line: seq![],
            after_cr: bytes@[e as int] == 13u8,
            first_line: false,
            block: self.event.view(),
        };
        let len = bytes.len();
        if bytes[e] == 10u8 && e + 1 < len && bytes[e + 1] == 10u8 {
            let event = self.event.finish();
            proof {
                assert(no_line_end(bytes@.subrange(e + 1, e + 1)));
                lemma_complete_at(strict, st1, bytes@, e + 1, e + 1);
                assert(st1.line + bytes@.subrange(e + 1, e + 1) =~= Seq::<u8>::empty());
                lemma_run_split(strict, st0@, bytes@, pos as int, e + 1, e + 2);
                assert(Seq::<Emit>::empty() + seq![Emit::Event(event@)] =~= seq![Emit::Event(event@)]);
            }
            self.state = Ghost(ReadState {
                line: seq![],
                after_cr: false,
                first_line: false,
                block: SseView::empty(),
            });
            return Ok((e + 2, Some(event)));
        }
        self.skip_leading_lf = bytes[e] == 13u8;
        self.state = Ghost(st1);
        proof {
            assert(Seq::<Emit>::empty() =~= emits(event_emit(None)));
        }
        Ok((e + 1, None))
    }
}

impl Parser {
    /// Complete the line `pending_line + bytes[pos..e]`, ended by `bytes[e]`.
    ///
    /// # Errors
    /// Returns an error for invalid UTF-8 in a recognized field value or an
    /// unknown field in strict mode.
    fn finish_buffered_line(&mut self, bytes: &[u8], pos: usize, e: usize) -> (r: Result<(usize, Option<Sse>), Error>)
        requires
            old(self).wf_loose(),
            !old(self).skip_leading_lf,
            old(self).mode is Start || old(self).mode is Buffered,
            pos <= e < bytes.len(),
            no_line_end(bytes@.subrange(pos as int, e as int)),
            is_line_end(bytes@[e as int]),
            old(self).state@.after_cr ==> bytes@[pos as int] != 10u8,
        ensures
            r is Ok ==> final(self).wf(),
            final(self).strict == old(self).strict,
            progressed(old(self).strict, old(self).state@, bytes@, pos as int, r, final(self).state@),
    {
        let ghost st0 = self.state@;
        let ghost strict = self.strict;
        proof {
            lemma_complete_at(strict, st0, bytes@, pos as int, e as int);
        }
        let ghost full = ReadState {
            line: st0.line + bytes@.subrange(pos as int, e as int),
            after_cr: false,
            ..st0
        };
        let result = if let LineMode::Start = self.mode {
            proof {
                assert(st0.line + bytes@.subrange(pos as int, e as int) =~= bytes@.subrange(pos as int, e as int));
            }
            self.parse_line(&bytes[pos..e])
        } else {
            let mut complete_line = Vec::new();
            std::mem::swap(&mut complete_line, &mut self.pending_line);
            complete_line.extend_from_slice(&bytes[pos..e]);
            proof {
                assert(complete_line@ =~= full.line);
            }
            self.mode = LineMode::Start;
            let result = self.parse_line(complete_line.as_slice());
            release_scratch(&mut complete_line);
            self.pending_line = complete_line;
            result
        };
        proof {
            let (block, out) = complete_line(strict, full);
            if result is Ok {
                assert(self.event.view() == block && out == event_emit(result->Ok_0));
            } else {
                assert(out == Some(error_emit(result->Err_0)));
            }
        }
        match result {
            Err(err) => {
                proof {
                    assert(run(strict, st0, bytes@.subrange(pos as int, e + 1)).1 == seq![error_emit(err)]);
                }
                Err(err)
            },
            Ok(event) => {
                self.skip_leading_lf = bytes[e] == 13u8;
                self.state = Ghost(ReadState {
                    line: seq![],
                    after_cr: bytes@[e as int] == 13u8,
                    first_line: false,
                    block: self.event.view(),
                });
                Ok((e + 1, event))
            },
        }
    }

    /// Read a new line, dispatching on its first byte.
    ///
    /// # Errors
    /// Returns an error for invalid UTF-8 in a recognized field value or an
    /// unknown field in strict mode.
    fn parse_new_line(&mut self, bytes: &[u8], pos: usize) -> (r: Result<(usize, Option<Sse>), Error>)
        requires
            old(self).wf_loose(),
            !old(self).skip_leading_lf,
            old(self).mode is Start,
            pos < bytes.len(),
            old(self).state@.after_cr ==> bytes@[pos as int] != 10u8,
        ensures
            r is Ok ==> final(self).wf(),
            final(self).strict == old(self).strict,
            progressed(old(self).strict, old(self).state@, bytes@, pos as int, r, final(self).state@),
    {
        let ghost st0 = self.state@;
        let ghost strict = self.strict;
        let len = bytes.len();
        let b = bytes[pos];
        if b == 58u8 {
            // A colon at the start of a line introduces a comment.
            return self.consume_comment_line(bytes, pos);
        }
        if len - pos >= 5 && matches_data_colon(bytes, pos, pos + 5, 0) {
            proof {
                assert(data_colon().subrange(0, 5) =~= data_colon());
            }
            return self.parse_data_line(bytes, pos);
        }
        if b == 10u8 || b == 13u8 {
            // An empty line completes the block.
            self.first_line = false;
            let event = self.event.dispatch();
            self.skip_leading_lf = b == 13u8;
            proof {
                assert(no_line_end(bytes@.subrange(pos as int, pos as int)));
                lemma_complete_at(strict, st0, bytes@, pos as int, pos as int);
                assert(st0.line + bytes@.subrange(pos as int, pos as int) =~= Seq::<u8>::empty());
            }
            self.state = Ghost(ReadState {
                line: seq![],
                after_cr: b == 13u8,
                first_line: false,
                block: self.event.view(),
            });
            return Ok((pos + 1, event));
        }
        match find_line_end(bytes, pos) {
            None => {
                // Keep the bytes until the line is complete.
                self.pending_line.extend_from_slice(&bytes[pos..len]);
                self.mode = LineMode::Buffered;
                proof {
                    lemma_plain_to(strict, st0, bytes@, pos as int, len as int);
                    assert(st0.line + bytes@.subrange(pos as int, len as int) =~= bytes@.subrange(pos as int, len as int));
                    assert(self.pending_line@ =~= bytes@.subrange(pos as int, len as int));
                }
                self.state = Ghost(ReadState {
                    line: bytes@.subrange(pos as int, len as int),
                    after_cr: false,
                    ..st0
                });
                Ok((len, None))
            },
            Some(e) => self.finish_buffered_line(bytes, pos, e),
        }
    }

    /// Continue a buffered line that may still turn out to be a `data:` line.
    fn resume_data_prefix(&mut self, bytes: &[u8], pos: usize) -> (r: usize)
        requires
            old(self).wf_loose(),
            !old(self).skip_leading_lf,
            old(self).mode is Buffered,
            pos < bytes.len(),
        ensures
            pos <= r <= bytes.len(),
            r == data_prefix_end(old(self).pending_line@, bytes@, pos as int),
            r > pos && old(self).pending_line@.len() + (r - pos) == 5 ==> final(self).mode
                == (LineMode::Data { needs_leading_space_check: true }),
            r > pos && old(self).pending_line@.len() + (r - pos) < 5 ==> final(self).mode is Buffered,
            final(self).strict == old(self).strict,
            r == pos ==> *final(self) == *old(self),
            r > pos ==> final(self).wf() && run(old(self).strict, old(self).state@, bytes@.subrange(pos as int, r as int)) == (
                final(self).state@,
                Seq::<Emit>::empty(),
            ),
    {
        let ghost st0 = self.state@;
        let ghost strict = self.strict;
        let len = bytes.len();
        let plen = self.pending_line.len();
        proof {
            assert(self.pending_line@.subrange(0, plen as int) =~= self.pending_line@);
        }
        if plen >= 5 || !matches_data_colon(self.pending_line.as_slice(), 0, plen, 0) {
            return pos;
        }
        let missing = 5 - plen;
        if len - pos < missing {
            if matches_data_colon(bytes, pos, len, plen) {
                self.pending_line.extend_from_slice(&bytes[pos..len]);
                proof {
                    lemma_data_colon_plain(bytes@.subrange(pos as int, len as int), plen as int);
                    lemma_plain_to(strict, st0, bytes@, pos as int, len as int);
                    lemma_no_line_end_concat(st0.line, bytes@.subrange(pos as int, len as int));
                    assert(self.pending_line@ =~= st0.line + bytes@.subrange(pos as int, len as int));
                }
                self.state = Ghost(ReadState {
                    line: st0.line + bytes@.subrange(pos as int, len as int),
                    after_cr: false,
                    ..st0
                });
                return len;
            }
        } else if matches_data_colon(bytes, pos, pos + missing, plen) {
            self.pending_line.clear();
            self.first_line = false;
            self.mode = LineMode::Data { needs_leading_space_check: true };
            proof {
                lemma_data_colon_plain(bytes@.subrange(pos as int, pos + missing), plen as int);
                lemma_plain_to(strict, st0, bytes@, pos as int, pos + missing);
                assert(st0.line + bytes@.subrange(pos as int, pos + missing) =~= data_colon());
                assert(data_colon().take(5) =~= data_colon());
            }
            self.state = Ghost(ReadState {
                line: st0.line + bytes@.subrange(pos as int, pos + missing),
                after_cr: false,
                ..st0
            });
            return pos + missing;
        }
        pos
    }

    /// Continue a buffered line.
    ///
    /// # Errors
    /// Returns an error for invalid UTF-8 in a recognized field value or an
    /// unknown field in strict mode.
    fn resume_buffered_line(&mut self, bytes: &[u8], pos: usize) -> (r: Result<(usize, Option<Sse>), Error>)
        requires
            old(self).wf(),
            old(self).mode is Buffered,
            pos < bytes.len(),
        ensures
            r is Ok ==> final(self).wf(),
            final(self).strict == old(self).strict,
            progressed(old(self).strict, old(self).state@, bytes@, pos as int, r, final(self).state@),
    {
        let ghost st0 = self.state@;
        let ghost strict = self.strict;
        let len = bytes.len();
        let next = self.resume_data_prefix(bytes, pos);
        if next > pos {
            proof {
                assert(Seq::<Emit>::empty() =~= emits(event_emit(None)));
            }
            return Ok((next, None));
        }
        match find_line_end(bytes, pos) {
            None => {
                self.pending_line.extend_from_slice(&bytes[pos..len]);
                proof {
                    lemma_plain_to(strict, st0, bytes@, pos as int, len as int);
                    lemma_no_line_end_concat(st0.line, bytes@.subrange(pos as int, len as int));
                    assert(self.pending_line@ =~= st0.line + bytes@.subrange(pos as int, len as int));
                }
                self.state = Ghost(ReadState {
                    line: st0.line + bytes@.subrange(pos as int, len as int),
                    after_cr: false,
                    ..st0
                });
                Ok((len, None))
            },
            Some(e) => self.finish_buffered_line(bytes, pos, e),
        }
    }

    /// Continue a data line whose `data:` prefix has been read.
    ///
    /// # Errors
    /// Returns an error when the completed value is not valid UTF-8.
    fn resume_data_line(&mut self, bytes: &[u8], pos: usize) -> (r: Result<(usize, Option<Sse>), Error>)
        requires
            old(self).wf(),
            old(self).mode is Data,
            pos < bytes.len(),
        ensures
            r is Ok ==> final(self).wf(),
            final(self).strict == old(self).strict,
            progressed(old(self).strict, old(self).state@, bytes@, pos as int, r, final(self).state@),
    {
        let ghost st0 = self.state@;
        let ghost strict = self.strict;
        let ghost frag0 = self.event.fragment();
        let ghost needs = self.mode->needs_leading_space_check;
        let len = bytes.len();
        let mut start = pos;
        if let LineMode::Data { needs_leading_space_check: true } = self.mode {
            if bytes[pos] == 32u8 {
                start = pos + 1;
            }
            self.mode = LineMode::Data { needs_leading_space_check: false };
        }
        match find_line_end(bytes, start) {
            None => {
                self.event.push_data_fragment(&bytes[start..len]);
                let ghost seg = bytes@.subrange(pos as int, len as int);
                proof {
                    assert(seg.skip(start - pos) =~= bytes@.subrange(start as int, len as int));
                    assert(no_line_end(seg)) by {
                        assert forall|i: int| 0 <= i < seg.len() implies !is_line_end(#[trigger] seg[i]) by {
                            if i + pos >= start {
                                assert(seg[i] == bytes@.subrange(start as int, len as int)[i + pos - start]);
                            }
                        }
                    }
                    lemma_data_continue(st0.line, frag0, needs, seg, start - pos);
                    lemma_plain_to(strict, st0, bytes@, pos as int, len as int);
                }
                self.state = Ghost(ReadState { line: st0.line + seg, after_cr: false, ..st0 });
                Ok((len, None))
            },
            Some(e) => {
                self.event.push_data_fragment(&bytes[start..e]);
                let ghost seg = bytes@.subrange(pos as int, e as int);
                proof {
                    assert(seg.skip(start - pos) =~= bytes@.subrange(start as int, e as int));
                    assert(no_line_end(seg)) by {
                        assert forall|i: int| 0 <= i < seg.len() implies !is_line_end(#[trigger] seg[i]) by {
                            if i + pos >= start {
                                assert(seg[i] == bytes@.subrange(start as int, e as int)[i + pos - start]);
                            }
                        }
                    }
                    lemma_data_continue(st0.line, frag0, needs, seg, start - pos);
                    lemma_complete_at(strict, st0, bytes@, pos as int, e as int);
                }
                self.finish_data_resume(bytes, pos, e, Ghost(st0))
            },
        }
    }

    /// Complete a data line continued from an earlier chunk, ended by `bytes[e]`.
    ///
    /// # Errors
    /// Returns an error when the completed value is not valid UTF-8.
    fn finish_data_resume(&mut self, bytes: &[u8], pos: usize, e: usize, st0: Ghost<ReadState>) -> (r: Result<(usize, Option<Sse>), Error>)
        requires
            old(self).event.wf(),
            old(self).event.view() == st0@.block,
            old(self).pending_line@.len() == 0,
            old(self).mode is Data,
            !old(self).first_line,
            !old(self).skip_leading_lf,
            pos <= e < bytes.len(),
            is_line_end(bytes@[e as int]),
            st0@.line.len() >= 5,
            ({
                let full = ReadState { line: st0@.line + bytes@.subrange(pos as int, e as int), after_cr: false, ..st0@ };
                let (block, out) = complete_line(old(self).strict, full);
                &&& run(old(self).strict, st0@, bytes@.subrange(pos as int, e + 1)) == (
                    ReadState { line: seq![], after_cr: bytes@[e as int] == 13u8, first_line: false, block },
                    emits(out),
                )
                &&& (block, out) == interpret_line(
                    old(self).strict,
                    old(self).event.view(),
                    full.line,
                )
                &&& crate::model::field_name(full.line) == name_data()
                &&& field_value(full.line) == old(self).event.fragment()
            }),
        ensures
            r is Ok ==> final(self).wf(),
            final(self).strict == old(self).strict,
            progressed(old(self).strict, st0@, bytes@, pos as int, r, final(self).state@),
    {
        let ghost strict = self.strict;
        if let Err(err) = self.event.finish_data_line() {
            proof {
                assert(run(strict, st0@, bytes@.subrange(pos as int, e + 1)).1 == seq![error_emit(err)]);
            }
            return Err(err);
        }
        self.mode = LineMode::Start;
        self.skip_leading_lf = bytes[e] == 13u8;
        self.state = Ghost(ReadState {
            line: seq![],
            after_cr: bytes@[e as int] == 13u8,
            first_line: false,
            block: self.event.view(),
        });
        proof {
            let full_line = st0@.line + bytes@.subrange(pos as int, e as int);
            assert(full_line.len() > 0);
            assert(Seq::<Emit>::empty() =~= emits(event_emit(None)));
        }
        Ok((e + 1, None))
    }

    /// Skip the rest of a comment line.
    fn resume_comment_line(&mut self, bytes: &[u8], pos: usize) -> (r: Result<(usize, Option<Sse>), Error>)
        requires
            old(self).wf(),
            old(self).mode is Comment,
            pos < bytes.len(),
        ensures
            r is Ok,
            final(self).wf(),
            final(self).strict == old(self).strict,
            progressed(old(self).strict, old(self).state@, bytes@, pos as int, r, final(self).state@),
    {
        let ghost st0 = self.state@;
        let ghost strict = self.strict;
        let len = bytes.len();
        match find_line_end(bytes, pos) {
            None => {
                proof {
                    lemma_plain_to(strict, st0, bytes@, pos as int, len as int);
                    let line2 = st0.line + bytes@.subrange(pos as int, len as int);
                    assert(line2[0] == st0.line[0]);
                    assert(no_line_end(line2)) by {
                        assert forall|i: int| 0 <= i < line2.len() implies !is_line_end(#[trigger] line2[i]) by {
                            if i < st0.line.len() {
                                assert(line2[i] == st0.line[i]);
                            } else {
                                assert(line2[i] == bytes@.subrange(pos as int, len as int)[i - st0.line.len()]);
                            }
                        }
                    }
                }
                self.state = Ghost(ReadState {
                    line: st0.line + bytes@.subrange(pos as int, len as int),
                    after_cr: false,
                    ..st0
                });
                Ok((len, None))
            },
            Some(e) => {
                let ghost line = st0.line + bytes@.subrange(pos as int, e as int);
                proof {
                    lemma_complete_at(strict, st0, bytes@, pos as int, e as int);
                    assert(line[0] == st0.line[0]);
                    lemma_strip_bom_noop(line);
                    lemma_first_colon(line, 0);
                    assert(crate::model::field_name(line).len() == 0);
                }
                self.mode = LineMode::Start;
                self.skip_leading_lf = bytes[e] == 13u8;
                self.state = Ghost(ReadState {
                    line: seq![],
                    after_cr: bytes@[e as int] == 13u8,
                    first_line: false,
                    block: st0.block,
                });
                Ok((e + 1, None))
            },
        }
    }
}

impl Parser {
    /// Read from `bytes[pos]` on, up to the end of the current line or of the chunk.
    ///
    /// # Errors
    /// Returns an error for invalid UTF-8 in a recognized field value or an
    /// unknown field in strict mode.
    fn parse_step(&mut self, bytes: &[u8], pos: usize) -> (r: Result<(usize, Option<Sse>), Error>)
        requires
            old(self).wf(),
            pos < bytes.len(),
        ensures
            r is Ok ==> final(self).wf(),
            final(self).strict == old(self).strict,
            progressed(old(self).strict, old(self).state@, bytes@, pos as int, r, final(self).state@),
    {
        let ghost st0 = self.state@;
        let ghost strict = self.strict;
        if self.skip_leading_lf {
            // A CR ended the previous line; an LF right after it belongs to it.
            self.skip_leading_lf = false;
            if bytes[pos] == 10u8 {
                proof {
                    assert(bytes@.subrange(pos as int, pos + 1) =~= seq![10u8]);
                    lemma_run_one(strict, st0, 10u8);
                    assert(Seq::<Emit>::empty() =~= emits(event_emit(None)));
                }
                self.state = Ghost(ReadState { after_cr: false, ..st0 });
                return Ok((pos + 1, None));
            }
        }
        match self.mode {
            LineMode::Start => self.parse_new_line(bytes, pos),
            LineMode::Buffered => self.resume_buffered_line(bytes, pos),
            LineMode::Data { .. } => self.resume_data_line(bytes, pos),
            LineMode::Comment => self.resume_comment_line(bytes, pos),
        }
    }

    /// Read `bytes` until an event block completes. Without an event the whole
    /// chunk is read. Chunk boundaries never change what is read: the parser
    /// reads exactly as `model::run` does, byte by byte.
    ///
    /// # Errors
    /// Returns an error for invalid UTF-8 in a recognized field value or an
    /// unknown field in strict mode.
    pub fn parse_chunk(&mut self, bytes: &[u8]) -> (r: Result<Option<ParsedEvent>, Error>)
        requires
            old(self).wf(),
        ensures
            final(self).is_strict() == old(self).is_strict(),
            match r {
                Ok(None) => final(self).wf() && run(old(self).is_strict(), old(self).read_state(), bytes@)
                    == (final(self).read_state(), Seq::<Emit>::empty()),
                Ok(Some(p)) => {
                    &&& final(self).wf()
                    &&& 0 < p.consumed <= bytes.len()
                    &&& run(old(self).is_strict(), old(self).read_state(), bytes@.take(p.consumed as int))
                        == (final(self).read_state(), seq![Emit::Event(p.event@)])
                    &&& event_end(old(self).is_strict(), old(self).read_state(), bytes@, p.consumed as int)
                },
                Err(e) => (e is Utf8Parse || e is UnknownField) && exists|k: int|
                    0 <= k <= bytes.len() && #[trigger] run(
                        old(self).is_strict(),
                        old(self).read_state(),
                        bytes@.take(k),
                    ).1 == seq![error_emit(e)],
            },
    {
        let ghost st0 = self.state@;
        let ghost strict = self.strict;
        let len = bytes.len();
        let mut pos: usize = 0;
        proof {
            assert(bytes@.subrange(0, 0) =~= Seq::<u8>::empty());
        }
        while pos < len
            invariant
                pos <= len == bytes.len(),
                self.wf(),
                self.strict == strict,
                strict == old(self).strict,
                st0 == old(self).state@,
                run(strict, st0, bytes@.subrange(0, pos as int)) == (self.state@, Seq::<Emit>::empty()),
            decreases len - pos,
        {
            let ghost st_top = self.state@;
            match self.parse_step(bytes, pos) {
                Err(err) => {
                    proof {
                        lemma_fault_prefix(strict, st0, bytes@, pos as int, st_top, err);
                        let k = choose|k: int|
                            0 <= k <= bytes.len() && #[trigger] run(strict, st0, bytes@.take(k)).1
                                == seq![error_emit(err)];
                        assert(run(old(self).is_strict(), old(self).read_state(), bytes@.take(k)).1
                            == seq![error_emit(err)]);
                    }
                    return Err(err);
                },
                Ok((next, event)) => {
                    proof {
                        lemma_run_split(strict, st0, bytes@, 0, pos as int, next as int);
                        assert(Seq::<Emit>::empty() + emits(event_emit(event)) =~= emits(event_emit(event)));
                    }
                    proof {
                        if event is Some {
                            lemma_run_split(strict, st0, bytes@, 0, pos as int, next - 1);
                            assert(bytes@.take(next - 1) =~= bytes@.subrange(0, next - 1));
                            assert(Seq::<Emit>::empty() + Seq::<Emit>::empty() =~= Seq::<Emit>::empty());
                        }
                    }
                    pos = next;
                    if let Some(event) = event {
                        proof {
                            assert(bytes@.take(pos as int) =~= bytes@.subrange(0, pos as int));
                            lemma_after_cr_last(strict, st0, bytes@.take(pos as int));
                            assert(bytes@.take(pos as int).last() == bytes@[pos - 1]);
                        }
                        if self.skip_leading_lf && pos < len && bytes[pos] == 10u8 {
                            // The LF of a CRLF that ended the block is read with it.
                            let ghost st1 = self.state@;
                            self.skip_leading_lf = false;
                            self.state = Ghost(ReadState { after_cr: false, ..st1 });
                            proof {
                                crate::model::lemma_run_append(strict, st0, bytes@.take(pos as int), seq![10u8]);
                                lemma_run_one(strict, st1, 10u8);
                                assert(bytes@.take(pos + 1) =~= bytes@.take(pos as int) + seq![10u8]);
                                assert(seq![Emit::Event(event@)] + Seq::<Emit>::empty() =~= seq![Emit::Event(event@)]);
                                assert(bytes@.take(pos - 1) =~= bytes@.subrange(0, next - 1));
                            }
                            return Ok(Some(ParsedEvent { consumed: pos + 1, event }));
                        }
                        return Ok(Some(ParsedEvent { consumed: pos, event }));
                    }
                },
            }
        }
        proof {
            assert(bytes@.subrange(0, len as int) =~= bytes@);
        }
        Ok(None)
    }
}

/// A fault within `bytes[pos..]`, read from the state reached at `pos`
/// without output, is a fault within `bytes`.
proof fn lemma_fault_prefix(strict: bool, st0: ReadState, bytes: Seq<u8>, pos: int, st_top: ReadState, err: Error)
    requires
        0 <= pos <= bytes.len(),
        run(strict, st0, bytes.subrange(0, pos)) == (st_top, Seq::<Emit>::empty()),
        exists|k: int|
            pos <= k <= bytes.len() && #[trigger] run(strict, st_top, bytes.subrange(pos, k)).1
                == seq![error_emit(err)],
    ensures
        exists|k: int|
            0 <= k <= bytes.len() && #[trigger] run(strict, st0, bytes.take(k)).1 == seq![error_emit(err)],
{
    let k = choose|k: int|
        pos <= k <= bytes.len() && #[trigger] run(strict, st_top, bytes.subrange(pos, k)).1
            == seq![error_emit(err)];
    lemma_run_split(strict, st0, bytes, 0, pos, k);
    assert(bytes.take(k) =~= bytes.subrange(0, k));
    assert(Seq::<Emit>::empty() + seq![error_emit(err)] =~= seq![error_emit(err)]);
    assert(run(strict, st0, bytes.take(k)).1 == seq![error_emit(err)]);
}

} // verus!

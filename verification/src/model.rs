//! The SSE wire format as mathematics: how a byte stream is read into event
//! blocks, and how an event block is written as bytes.
use vstd::prelude::*;
use vstd::utf8::{decode_utf8, encode_utf8, valid_utf8};

use crate::event::SseView;
use crate::stream::parser::scan::utf8_error;

verus! {

// ---------------------------------------------------------------------------
// Bytes of the wire format
// ---------------------------------------------------------------------------

pub open spec fn is_line_end(b: u8) -> bool {
    b == 10u8 || b == 13u8
}

/// No byte of `s` is CR or LF.
pub open spec fn no_line_end(s: Seq<u8>) -> bool {
    forall|i: int| 0 <= i < s.len() ==> !is_line_end(#[trigger] s[i])
}

/// A line less the byte-order mark (EF BB BF) that may open it.
pub open spec fn strip_bom(line: Seq<u8>) -> Seq<u8> {
    if line.len() >= 3 && line[0] == 0xEFu8 && line[1] == 0xBBu8 && line[2] == 0xBFu8 {
        line.skip(3)
    } else {
        line
    }
}

/// Drop one leading space.
pub open spec fn strip_space(v: Seq<u8>) -> Seq<u8> {
    if v.len() > 0 && v[0] == 32u8 {
        v.skip(1)
    } else {
        v
    }
}

/// Index of the first colon in `s`, or `s.len()` when there is none.
pub open spec fn first_colon(s: Seq<u8>) -> int
    decreases s.len(),
{
    if s.len() == 0 {
        0
    } else {
        let k = first_colon(s.drop_last());
        if k < s.len() - 1 {
            k
        } else if s.last() == 58u8 {
            s.len() - 1
        } else {
            s.len() as int
        }
    }
}

/// The field name of a non-empty line: the bytes before the first colon.
pub open spec fn field_name(line: Seq<u8>) -> Seq<u8> {
    line.take(first_colon(line))
}

/// The field value of a line: the bytes after the first colon, less one
/// leading space; empty for a line without a colon.
pub open spec fn field_value(line: Seq<u8>) -> Seq<u8> {
    let k = first_colon(line);
    if k < line.len() {
        strip_space(line.skip(k + 1))
    } else {
        seq![]
    }
}

pub open spec fn name_data() -> Seq<u8> {
    seq![100u8, 97u8, 116u8, 97u8]
}

pub open spec fn name_event() -> Seq<u8> {
    seq![101u8, 118u8, 101u8, 110u8, 116u8]
}

pub open spec fn name_id() -> Seq<u8> {
    seq![105u8, 100u8]
}

pub open spec fn name_retry() -> Seq<u8> {
    seq![114u8, 101u8, 116u8, 114u8, 121u8]
}

/// `data:`, the prefix that the decoder appends to the data buffer directly.
pub open spec fn data_colon() -> Seq<u8> {
    seq![100u8, 97u8, 116u8, 97u8, 58u8]
}

pub open spec fn is_digit(b: u8) -> bool {
    48u8 <= b <= 57u8
}

/// A non-empty run of ASCII digits.
pub open spec fn is_digits(v: Seq<u8>) -> bool {
    v.len() > 0 && forall|i: int| 0 <= i < v.len() ==> is_digit(#[trigger] v[i])
}

/// The value of a run of decimal digits.
pub open spec fn decimal(v: Seq<u8>) -> nat
    decreases v.len(),
{
    if v.len() == 0 {
        0
    } else {
        decimal(v.drop_last()) * 10 + (v.last() - 48u8) as nat
    }
}

/// Data lines are joined with LF.
pub open spec fn join_data(d: Option<Seq<char>>, line: Seq<char>) -> Seq<char> {
    match d {
        Some(d) => d + seq!['\n'] + line,
        None => line,
    }
}

// ---------------------------------------------------------------------------
// Reading a byte stream
// ---------------------------------------------------------------------------

/// What the reader hands out at a byte: a completed block, or a terminal fault.
pub enum Emit {
    Event(SseView),
    /// A recognized field value that is not UTF-8, with the error that the
    /// standard library reports for it.
    Utf8Error(std::str::Utf8Error),
    UnknownField,
}

/// The effect of one complete line (BOM already removed) on the block under
/// construction. `strict` rejects unknown field names.
pub open spec fn interpret_line(strict: bool, block: SseView, line: Seq<u8>) -> (SseView, Option<Emit>) {
    if line.len() == 0 {
        if block.has_fields() {
            (SseView::empty(), Some(Emit::Event(block)))
        } else {
            (block, None)
        }
    } else {
        let name = field_name(line);
        let value = field_value(line);
        if name == name_data() {
            if valid_utf8(value) {
                (SseView { data: Some(join_data(block.data, decode_utf8(value))), ..block }, None)
            } else {
                (block, Some(Emit::Utf8Error(utf8_error(value))))
            }
        } else if name == name_event() {
            if valid_utf8(value) {
                (SseView { event: Some(decode_utf8(value)), ..block }, None)
            } else {
                (block, Some(Emit::Utf8Error(utf8_error(value))))
            }
        } else if name == name_id() {
            if value.contains(0u8) {
                (block, None)
            } else if valid_utf8(value) {
                (SseView { id: Some(decode_utf8(value)), ..block }, None)
            } else {
                (block, Some(Emit::Utf8Error(utf8_error(value))))
            }
        } else if name == name_retry() {
            if !valid_utf8(value) {
                (block, Some(Emit::Utf8Error(utf8_error(value))))
            } else if is_digits(value) && decimal(value) <= u64::MAX {
                (SseView { retry: Some(decimal(value) as u64), ..block }, None)
            } else {
                (block, None)
            }
        } else if name.len() == 0 {
            (block, None)
        } else if strict {
            (block, Some(Emit::UnknownField))
        } else {
            (block, None)
        }
    }
}

/// The reader's state between two bytes.
pub struct ReadState {
    /// The bytes of the line read so far, without its line ending.
    pub line: Seq<u8>,
    /// The last byte read was a CR, so an LF right after it ends nothing.
    pub after_cr: bool,
    /// No line has ended yet; a BOM may open the first line.
    pub first_line: bool,
    /// The fields of the block under construction.
    pub block: SseView,
}

impl ReadState {
    pub open spec fn initial() -> ReadState {
        ReadState { line: seq![], after_cr: false, first_line: true, block: SseView::empty() }
    }
}

/// The effect of the line that just ended.
pub open spec fn complete_line(strict: bool, st: ReadState) -> (SseView, Option<Emit>) {
    let line = if st.first_line {
        strip_bom(st.line)
    } else {
        st.line
    };
    interpret_line(strict, st.block, line)
}

/// Read one byte. CR, LF and CRLF end a line.
pub open spec fn step(strict: bool, st: ReadState, b: u8) -> (ReadState, Option<Emit>) {
    if st.after_cr && b == 10u8 {
        (ReadState { after_cr: false, ..st }, None)
    } else if is_line_end(b) {
        let (block, out) = complete_line(strict, st);
        (ReadState { line: seq![], after_cr: b == 13u8, first_line: false, block }, out)
    } else {
        (ReadState { line: st.line.push(b), after_cr: false, ..st }, None)
    }
}

pub open spec fn emits(o: Option<Emit>) -> Seq<Emit> {
    match o {
        Some(e) => seq![e],
        None => seq![],
    }
}

/// Read a run of bytes: the state after them, and what was handed out on the way.
pub open spec fn run(strict: bool, st: ReadState, bytes: Seq<u8>) -> (ReadState, Seq<Emit>)
    decreases bytes.len(),
{
    if bytes.len() == 0 {
        (st, seq![])
    } else {
        let (st1, out1) = run(strict, st, bytes.drop_last());
        let (st2, o) = step(strict, st1, bytes.last());
        (st2, out1 + emits(o))
    }
}

/// Every item is an event.
pub open spec fn all_events(s: Seq<Emit>) -> bool {
    forall|i: int| 0 <= i < s.len() ==> (#[trigger] s[i]) is Event
}

// ---------------------------------------------------------------------------
// Writing an event block
// ---------------------------------------------------------------------------

/// CRLF and bare CR become LF.
pub open spec fn normalize_line_ends(s: Seq<u8>) -> Seq<u8>
    decreases s.len(),
{
    if s.len() == 0 {
        seq![]
    } else {
        let init = s.drop_last();
        let b = s.last();
        if b == 10u8 && init.len() > 0 && init.last() == 13u8 {
            normalize_line_ends(init)
        } else if b == 13u8 {
            normalize_line_ends(init).push(10u8)
        } else {
            normalize_line_ends(init).push(b)
        }
    }
}

/// Each LF of `t` followed by `prefix`.
pub open spec fn prefix_lines(prefix: Seq<u8>, t: Seq<u8>) -> Seq<u8>
    decreases t.len(),
{
    if t.len() == 0 {
        seq![]
    } else if t.last() == 10u8 {
        prefix_lines(prefix, t.drop_last()) + seq![10u8] + prefix
    } else {
        prefix_lines(prefix, t.drop_last()).push(t.last())
    }
}

/// A text value written as one line per logical line, each with `prefix`.
pub open spec fn text_field(prefix: Seq<u8>, value: Seq<u8>) -> Seq<u8> {
    prefix + prefix_lines(prefix, normalize_line_ends(value)) + seq![10u8]
}

/// A single-line field.
pub open spec fn line_field(prefix: Seq<u8>, value: Seq<u8>) -> Seq<u8> {
    prefix + value + seq![10u8]
}

/// The decimal digits of `n`, without leading zeros.
pub open spec fn decimal_digits(n: nat) -> Seq<u8>
    decreases n,
{
    if n < 10 {
        seq![(48 + n) as u8]
    } else {
        decimal_digits(n / 10).push((48 + n % 10) as u8)
    }
}

pub open spec fn event_prefix() -> Seq<u8> {
    name_event() + seq![58u8, 32u8]
}

pub open spec fn data_prefix() -> Seq<u8> {
    name_data() + seq![58u8, 32u8]
}

pub open spec fn id_prefix() -> Seq<u8> {
    name_id() + seq![58u8, 32u8]
}

pub open spec fn retry_prefix() -> Seq<u8> {
    name_retry() + seq![58u8, 32u8]
}

pub open spec fn comment_prefix() -> Seq<u8> {
    seq![58u8, 32u8]
}

/// The wire form of a block. Fields come in the order event, data, id, retry,
/// and an empty line ends the block.
pub open spec fn encode_block(e: SseView) -> Seq<u8> {
    (match e.event {
        Some(v) => line_field(event_prefix(), encode_utf8(v)),
        None => seq![],
    }) + (match e.data {
        Some(v) => text_field(data_prefix(), encode_utf8(v)),
        None => seq![],
    }) + (match e.id {
        Some(v) => line_field(id_prefix(), encode_utf8(v)),
        None => seq![],
    }) + (match e.retry {
        Some(r) => line_field(retry_prefix(), decimal_digits(r as nat)),
        None => seq![],
    }) + seq![10u8]
}

/// An event type can be written: it holds no CR or LF.
pub open spec fn valid_event_text(v: Seq<char>) -> bool {
    no_line_end(encode_utf8(v))
}

/// An id can be written: it holds no CR, LF or NULL.
pub open spec fn valid_id_text(v: Seq<char>) -> bool {
    no_line_end(encode_utf8(v)) && !encode_utf8(v).contains(0u8)
}

/// A comment written as one comment line per logical line.
pub open spec fn encode_comment(comment: Seq<char>) -> Seq<u8> {
    text_field(comment_prefix(), encode_utf8(comment)) + seq![10u8]
}

} // verus!

verus! {

// ---------------------------------------------------------------------------
// Facts about reading
// ---------------------------------------------------------------------------

/// Reading `a` then `b` is reading `a + b`.
pub proof fn lemma_run_append(strict: bool, st: ReadState, a: Seq<u8>, b: Seq<u8>)
    ensures
        run(strict, st, a + b) == (
            run(strict, run(strict, st, a).0, b).0,
            run(strict, st, a).1 + run(strict, run(strict, st, a).0, b).1,
        ),
    decreases b.len(),
{
    if b.len() == 0 {
        assert(a + b =~= a);
        assert(run(strict, st, a).1 + seq![] =~= run(strict, st, a).1);
    } else {
        lemma_run_append(strict, st, a, b.drop_last());
        assert((a + b).drop_last() =~= a + b.drop_last());
        assert((a + b).last() == b.last());
        let (s1, o1) = run(strict, st, a);
        let (s2, o2) = run(strict, s1, b.drop_last());
        let (s3, o) = step(strict, s2, b.last());
        assert(o1 + o2 + emits(o) =~= o1 + (o2 + emits(o)));
    }
}

/// Reading one byte is a step.
pub proof fn lemma_run_one(strict: bool, st: ReadState, b: u8)
    ensures
        run(strict, st, seq![b]) == (step(strict, st, b).0, emits(step(strict, st, b).1)),
{
    assert(seq![b].drop_last() =~= Seq::<u8>::empty());
    assert(seq![b].last() == b);
    assert(run(strict, st, Seq::<u8>::empty()) == (st, Seq::<Emit>::empty()));
    let (s1, o) = step(strict, st, b);
    assert(Seq::<Emit>::empty() + emits(o) =~= emits(o));
}

/// Bytes without a line ending only extend the current line.
pub proof fn lemma_run_plain(strict: bool, st: ReadState, seg: Seq<u8>)
    requires
        no_line_end(seg),
    ensures
        run(strict, st, seg) == (
            ReadState {
                line: st.line + seg,
                after_cr: st.after_cr && seg.len() == 0,
                ..st
            },
            Seq::<Emit>::empty(),
        ),
    decreases seg.len(),
{
    if seg.len() == 0 {
        assert(st.line + seg =~= st.line);
    } else {
        let init = seg.drop_last();
        assert(no_line_end(init)) by {
            assert forall|i: int| 0 <= i < init.len() implies !is_line_end(#[trigger] init[i]) by {
                assert(init[i] == seg[i]);
            }
        }
        lemma_run_plain(strict, st, init);
        assert(!is_line_end(seg[seg.len() - 1]));
        assert((st.line + init).push(seg.last()) =~= st.line + seg);
        assert(Seq::<Emit>::empty() + emits(None) =~= Seq::<Emit>::empty());
    }
}

/// Reading the subrange `[i, k)` is reading `[i, j)` then `[j, k)`.
pub proof fn lemma_run_split(strict: bool, st: ReadState, bytes: Seq<u8>, i: int, j: int, k: int)
    requires
        0 <= i <= j <= k <= bytes.len(),
    ensures
        run(strict, st, bytes.subrange(i, k)) == (
            run(strict, run(strict, st, bytes.subrange(i, j)).0, bytes.subrange(j, k)).0,
            run(strict, st, bytes.subrange(i, j)).1 + run(
                strict,
                run(strict, st, bytes.subrange(i, j)).0,
                bytes.subrange(j, k),
            ).1,
        ),
{
    assert(bytes.subrange(i, k) =~= bytes.subrange(i, j) + bytes.subrange(j, k));
    lemma_run_append(strict, st, bytes.subrange(i, j), bytes.subrange(j, k));
}

/// `first_colon` is the index of the first colon, or the length.
pub proof fn lemma_first_colon(s: Seq<u8>, k: int)
    requires
        0 <= k <= s.len(),
        forall|j: int| 0 <= j < k ==> s[j] != 58u8,
        k < s.len() ==> s[k] == 58u8,
    ensures
        first_colon(s) == k,
    decreases s.len(),
{
    if s.len() == 0 {
    } else if k == s.len() {
        lemma_first_colon(s.drop_last(), k - 1);
    } else if k == s.len() - 1 {
        lemma_first_colon(s.drop_last(), k);
    } else {
        lemma_first_colon(s.drop_last(), k);
    }
}

} // verus!

verus! {

/// After a CR, a byte other than LF is read as if no CR preceded it.
pub proof fn lemma_run_after_cr(strict: bool, st: ReadState, seg: Seq<u8>)
    requires
        seg.len() > 0,
        seg[0] != 10u8,
    ensures
        run(strict, st, seg) == run(strict, ReadState { after_cr: false, ..st }, seg),
    decreases seg.len(),
{
    let stn = ReadState { after_cr: false, ..st };
    if seg.len() == 1 {
        lemma_run_one(strict, st, seg[0]);
        lemma_run_one(strict, stn, seg[0]);
        assert(seg =~= seq![seg[0]]);
    } else {
        let init = seg.drop_last();
        lemma_run_after_cr(strict, st, init);
    }
}

/// A line that does not start with the BOM's first byte keeps its bytes.
pub proof fn lemma_strip_bom_noop(line: Seq<u8>)
    requires
        line.len() == 0 || line[0] != 0xEFu8,
    ensures
        strip_bom(line) == line,
{
}

/// Appending digits never lowers a decimal value.
pub proof fn lemma_decimal_prefix(v: Seq<u8>, i: int)
    requires
        0 <= i <= v.len(),
    ensures
        decimal(v.take(i)) <= decimal(v),
    decreases v.len(),
{
    if i == v.len() {
        assert(v.take(i) =~= v);
    } else {
        lemma_decimal_prefix(v.drop_last(), i);
        assert(v.drop_last().take(i) =~= v.take(i));
    }
}

} // verus!

verus! {

/// The number of times `b` occurs in `s`.
pub open spec fn count_byte(s: Seq<u8>, b: u8) -> nat
    decreases s.len(),
{
    if s.len() == 0 {
        0
    } else {
        count_byte(s.drop_last(), b) + (if s.last() == b {
            1nat
        } else {
            0nat
        })
    }
}

/// What encoding a block gives: its wire form, or the metadata it cannot hold.
pub open spec fn encode_result(e: SseView) -> Result<Seq<u8>, crate::error::EncodeError> {
    if e.event is Some && !valid_event_text(e.event->0) {
        Err(crate::error::EncodeError::InvalidEvent)
    } else if e.id is Some && !valid_id_text(e.id->0) {
        Err(crate::error::EncodeError::InvalidId)
    } else {
        Ok(encode_block(e))
    }
}

/// Text without line endings is its own normal form.
pub proof fn lemma_normalize_plain(s: Seq<u8>)
    requires
        no_line_end(s),
    ensures
        normalize_line_ends(s) == s,
    decreases s.len(),
{
    if s.len() > 0 {
        assert(no_line_end(s.drop_last())) by {
            assert forall|i: int| 0 <= i < s.drop_last().len() implies !is_line_end(#[trigger] s.drop_last()[i]) by {
                assert(s.drop_last()[i] == s[i]);
            }
        }
        lemma_normalize_plain(s.drop_last());
        assert(!is_line_end(s[s.len() - 1]));
        assert(s.drop_last().push(s.last()) =~= s);
    }
}

/// Text without LF gets no extra prefixes.
pub proof fn lemma_prefix_lines_plain(prefix: Seq<u8>, t: Seq<u8>)
    requires
        count_byte(t, 10u8) == 0,
    ensures
        prefix_lines(prefix, t) == t,
    decreases t.len(),
{
    if t.len() > 0 {
        lemma_prefix_lines_plain(prefix, t.drop_last());
        assert(t.drop_last().push(t.last()) =~= t);
    }
}


/// Each LF adds one prefix.
pub proof fn lemma_prefix_lines_len(prefix: Seq<u8>, t: Seq<u8>)
    ensures
        prefix_lines(prefix, t).len() == t.len() + count_byte(t, 10u8) * prefix.len(),
    decreases t.len(),
{
    if t.len() == 0 {
        assert(0 * prefix.len() == 0) by (nonlinear_arith);
    } else {
        lemma_prefix_lines_len(prefix, t.drop_last());
        let c = count_byte(t.drop_last(), 10u8);
        let p = prefix.len();
        if t.last() == 10u8 {
            assert((c + 1) * p == c * p + p) by (nonlinear_arith);
            assert(count_byte(t, 10u8) == c + 1);
            assert(prefix_lines(prefix, t) == prefix_lines(prefix, t.drop_last()) + seq![10u8] + prefix);
            assert(prefix_lines(prefix, t).len() == prefix_lines(prefix, t.drop_last()).len() + 1 + p);
            assert(prefix_lines(prefix, t.drop_last()).len() == t.drop_last().len() + c * p);
            assert(t.len() == t.drop_last().len() + 1);
            assert(count_byte(t, 10u8) * prefix.len() == (c + 1) * p);
        } else {
            assert(count_byte(t, 10u8) == c);
            assert(prefix_lines(prefix, t) == prefix_lines(prefix, t.drop_last()).push(t.last()));
            assert(count_byte(t, 10u8) * prefix.len() == c * p);
        }
    }
}

/// Text without CR is its own normal form.
pub proof fn lemma_normalize_no_cr(s: Seq<u8>)
    requires
        !s.contains(13u8),
    ensures
        normalize_line_ends(s) == s,
    decreases s.len(),
{
    if s.len() > 0 {
        let init = s.drop_last();
        assert(!init.contains(13u8)) by {
            if init.contains(13u8) {
                let i = choose|i: int| 0 <= i < init.len() && init[i] == 13u8;
                assert(s[i] == 13u8);
            }
        }
        lemma_normalize_no_cr(init);
        assert(s[s.len() - 1] != 13u8);
        assert(init.push(s.last()) =~= s);
    }
}

} // verus!

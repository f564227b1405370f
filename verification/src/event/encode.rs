use vstd::prelude::*;
use vstd::string::StringSliceAdditionalSpecFns;
use vstd::utf8::encode_utf8;

use super::{Sse, SseView};
use crate::error::EncodeError;
use crate::model::{
    comment_prefix, count_byte, data_prefix, decimal_digits, encode_block, encode_comment,
    encode_result, event_prefix, id_prefix, is_line_end, lemma_normalize_plain,
    lemma_normalize_no_cr, lemma_prefix_lines_len, lemma_prefix_lines_plain, line_field, no_line_end,
    normalize_line_ends, prefix_lines, retry_prefix, text_field,
};
use crate::stream::parser::contains_byte;
use crate::stream::parser::scan::memchr2;

verus! {

#[verifier::external_type_specification]
#[verifier::external_body]
pub struct ExBytes(bytes::Bytes);

/// The bytes that a `Bytes` buffer holds.
pub uninterp spec fn bytes_view(b: bytes::Bytes) -> Seq<u8>;

/// Calls `Bytes::from` on a vector; the buffer holds the vector's bytes.
#[verifier::external_body]
pub(crate) fn bytes_from_vec(v: Vec<u8>) -> (r: bytes::Bytes)
    ensures
        bytes_view(r) == v@,
{
    bytes::Bytes::from(v)
}

/// A text value with its line endings normalized to LF, ready to be written
/// as one prefixed line per logical line.
pub struct TextLines<'a> {
    value: &'a [u8],
    normalized: Option<Vec<u8>>,
    extra_lines: usize,
}

fn prefix_bytes(name: &[u8]) -> (r: Vec<u8>)
    ensures
        r@ == name@ + seq![58u8, 32u8],
{
    let mut r = Vec::new();
    r.extend_from_slice(name);
    r.push(58u8);
    r.push(32u8);
    r
}

fn event_prefix_bytes() -> (r: Vec<u8>)
    ensures
        r@ == event_prefix(),
{
    let name = [101u8, 118u8, 101u8, 110u8, 116u8];
    let r = prefix_bytes(&name);
    assert(r@ =~= event_prefix());
    r
}

fn data_prefix_bytes() -> (r: Vec<u8>)
    ensures
        r@ == data_prefix(),
{
    let name = [100u8, 97u8, 116u8, 97u8];
    let r = prefix_bytes(&name);
    assert(r@ =~= data_prefix());
    r
}

fn id_prefix_bytes() -> (r: Vec<u8>)
    ensures
        r@ == id_prefix(),
{
    let name = [105u8, 100u8];
    let r = prefix_bytes(&name);
    assert(r@ =~= id_prefix());
    r
}

fn retry_prefix_bytes() -> (r: Vec<u8>)
    ensures
        r@ == retry_prefix(),
{
    let name = [114u8, 101u8, 116u8, 114u8, 121u8];
    let r = prefix_bytes(&name);
    assert(r@ =~= retry_prefix());
    r
}

fn comment_prefix_bytes() -> (r: Vec<u8>)
    ensures
        r@ == comment_prefix(),
{
    let mut r = Vec::new();
    r.push(58u8);
    r.push(32u8);
    assert(r@ =~= comment_prefix());
    r
}

/// Write one line: `prefix`, `value`, LF.
fn write_line(output: &mut Vec<u8>, prefix: &[u8], value: &[u8])
    ensures
        final(output)@ == old(output)@ + line_field(prefix@, value@),
{
    output.extend_from_slice(prefix);
    output.extend_from_slice(value);
    output.push(10u8);
    assert(final(output)@ =~= old(output)@ + line_field(prefix@, value@));
}

/// Write `n` in decimal.
fn write_decimal(output: &mut Vec<u8>, n: u64)
    ensures
        final(output)@ == old(output)@ + decimal_digits(n as nat),
    decreases n,
{
    if n >= 10 {
        write_decimal(output, n / 10);
    }
    output.push(48u8 + (n % 10) as u8);
    proof {
        if n >= 10 {
            assert(old(output)@ + decimal_digits((n / 10) as nat) + seq![(48 + n % 10) as u8] =~= old(output)@ + decimal_digits(n as nat));
        } else {
            assert(old(output)@ + seq![(48 + n) as u8] =~= old(output)@ + decimal_digits(n as nat));
        }
    }
}

/// The number of LFs in `v`.
fn count_lf(v: &[u8]) -> (r: usize)
    ensures
        r == count_byte(v@, 10u8),
{
    let mut n: usize = 0;
    let mut i: usize = 0;
    proof {
        assert(v@.take(0) =~= Seq::<u8>::empty());
    }
    while i < v.len()
        invariant
            i <= v.len(),
            n == count_byte(v@.take(i as int), 10u8),
            n <= i,
        decreases v.len() - i,
    {
        proof {
            assert(v@.take(i + 1).drop_last() =~= v@.take(i as int));
            assert(v@.take(i + 1).last() == v@[i as int]);
        }
        if v[i] == 10u8 {
            n = n + 1;
        }
        i = i + 1;
    }
    proof {
        assert(v@.take(v.len() as int) =~= v@);
    }
    n
}

impl<'a> TextLines<'a> {
    /// The value as given.
    pub closed spec fn source(&self) -> Seq<u8> {
        self.value@
    }

    /// The value with its line endings normalized.
    pub closed spec fn text(&self) -> Seq<u8> {
        match self.normalized {
            Some(v) => v@,
            None => self.value@,
        }
    }

    /// The value is used as given, without a copy.
    pub closed spec fn is_borrowed(&self) -> bool {
        self.normalized is None
    }

    /// The text is the value normalized, and `extra_lines` counts its LFs.
    #[verifier::type_invariant]
    spec fn inv(&self) -> bool {
        &&& self.text() == normalize_line_ends(self.value@)
        &&& self.extra_lines == count_byte(self.text(), 10u8)
    }

    /// Prepare a value; values without line endings are used as they are.
    pub fn new(value: &'a [u8]) -> (r: Self)
        ensures
            r.source() == value@,
            r.text() == normalize_line_ends(value@),
            r.is_borrowed() <==> !value@.contains(13u8),
    {
        if memchr2(13u8, 10u8, value).is_none() {
            proof {
                assert(no_line_end(value@));
                lemma_normalize_plain(value@);
                lemma_count_plain(value@);
            }
            return TextLines { value, normalized: None, extra_lines: 0 };
        }
        Self::multiline(value)
    }

    /// Normalize CRLF and bare CR to LF, and count the LFs. A value without
    /// CR is used as given.
    fn multiline(value: &'a [u8]) -> (r: Self)
        ensures
            r.source() == value@,
            r.text() == normalize_line_ends(value@),
            r.is_borrowed() <==> !value@.contains(13u8),
    {
        if !contains_byte(value, 13u8) {
            let lines = count_lf(value);
            proof {
                lemma_normalize_no_cr(value@);
            }
            return TextLines { value, normalized: None, extra_lines: lines };
        }
        let mut out: Vec<u8> = Vec::new();
        let mut lines: usize = 0;
        let mut i: usize = 0;
        proof {
            assert(value@.take(0) =~= Seq::<u8>::empty());
        }
        while i < value.len()
            invariant
                i <= value.len(),
                out@ == normalize_line_ends(value@.take(i as int)),
                lines == count_byte(out@, 10u8),
                lines <= i,
            decreases value.len() - i,
        {
            let b = value[i];
            let ghost prev = out@;
            proof {
                assert(value@.take(i + 1).drop_last() =~= value@.take(i as int));
                assert(value@.take(i + 1).last() == b);
            }
            if b == 13u8 {
                out.push(10u8);
                lines = lines + 1;
            } else if b == 10u8 {
                if i == 0 || value[i - 1] != 13u8 {
                    out.push(10u8);
                    lines = lines + 1;
                } else {
                    assert(value@.take(i as int).last() == value@[i - 1]);
                }
            } else {
                out.push(b);
            }
            proof {
                if out@.len() > prev.len() {
                    assert(out@.drop_last() =~= prev);
                }
            }
            i = i + 1;
        }
        proof {
            assert(value@.take(value.len() as int) =~= value@);
        }
        TextLines { value, normalized: Some(out), extra_lines: lines }
    }
}

/// `n` capped at `usize::MAX`.
pub open spec fn saturating(n: int) -> usize {
    if n > usize::MAX as int {
        usize::MAX
    } else {
        n as usize
    }
}

fn saturating_add(a: usize, b: usize) -> (r: usize)
    ensures
        r == saturating(a + b),
{
    match a.checked_add(b) {
        Some(v) => v,
        None => usize::MAX,
    }
}

fn saturating_mul(a: usize, b: usize) -> (r: usize)
    ensures
        r == saturating(a * b),
{
    match a.checked_mul(b) {
        Some(v) => v,
        None => usize::MAX,
    }
}

impl<'a> TextLines<'a> {
    fn text_slice(&self) -> (r: &[u8])
        ensures
            r@ == self.text(),
    {
        match &self.normalized {
            Some(v) => v.as_slice(),
            None => self.value,
        }
    }

    /// The number of bytes `write` appends with a prefix of `prefix_len`
    /// bytes, capped at `usize::MAX`.
    pub fn encoded_len(&self, prefix_len: usize) -> (r: usize)
        ensures
            r == saturating(self.text().len() + prefix_len + 1 + count_byte(self.text(), 10u8) * prefix_len),
            forall|prefix: Seq<u8>| #![trigger text_field(prefix, self.source())]
                prefix.len() == prefix_len ==> r == saturating(text_field(prefix, self.source()).len() as int),
    {
        proof {
            use_type_invariant(self);
            assert forall|prefix: Seq<u8>| #![trigger text_field(prefix, self.source())]
                prefix.len() == prefix_len implies self.text().len() + prefix_len + 1 + count_byte(self.text(), 10u8)
                * prefix_len == text_field(prefix, self.source()).len() by {
                lemma_prefix_lines_len(prefix, self.text());
            }
        }
        let text_len = self.text_slice().len();
        let a = saturating_add(text_len, prefix_len);
        let b = saturating_add(a, 1);
        let c = saturating_mul(self.extra_lines, prefix_len);
        let r = saturating_add(b, c);
        assert(self.extra_lines * prefix_len >= 0) by (nonlinear_arith);
        r
    }

    /// Write each logical line with `prefix`.
    pub fn write(&self, output: &mut Vec<u8>, prefix: &[u8])
        ensures
            final(output)@ == old(output)@ + text_field(prefix@, self.source()),
    {
        proof {
            use_type_invariant(self);
        }
        if self.extra_lines == 0 {
            let text = self.text_slice();
            write_line(output, prefix, text);
            proof {
                lemma_prefix_lines_plain(prefix@, self.text());
            }
        } else {
            self.write_multiline(output, prefix);
        }
    }

    /// Write each LF-separated line with `prefix`, keeping empty and trailing lines.
    fn write_multiline(&self, output: &mut Vec<u8>, prefix: &[u8])
        ensures
            final(output)@ == old(output)@ + text_field(prefix@, self.source()),
    {
        proof {
            use_type_invariant(self);
        }
        let text = self.text_slice();
        output.extend_from_slice(prefix);
        let ghost base = old(output)@ + prefix@;
        let mut i: usize = 0;
        proof {
            assert(text@.take(0) =~= Seq::<u8>::empty());
            assert(output@ =~= base + prefix_lines(prefix@, text@.take(0)));
        }
        while i < text.len()
            invariant
                i <= text.len(),
                output@ == base + prefix_lines(prefix@, text@.take(i as int)),
            decreases text.len() - i,
        {
            proof {
                assert(text@.take(i + 1).drop_last() =~= text@.take(i as int));
                assert(text@.take(i + 1).last() == text@[i as int]);
            }
            if text[i] == 10u8 {
                output.push(10u8);
                output.extend_from_slice(prefix);
                proof {
                    assert(output@ =~= base + prefix_lines(prefix@, text@.take(i + 1)));
                }
            } else {
                output.push(text[i]);
                proof {
                    assert(output@ =~= base + prefix_lines(prefix@, text@.take(i + 1)));
                }
            }
            i = i + 1;
        }
        output.push(10u8);
        proof {
            assert(text@.take(text.len() as int) =~= text@);
            assert(final(output)@ =~= old(output)@ + text_field(prefix@, self.source()));
        }
    }
}

/// Whether `b` holds CR or LF.
fn has_line_end(b: &[u8]) -> (r: bool)
    ensures
        r == !no_line_end(b@),
{
    match memchr2(13u8, 10u8, b) {
        Some(i) => {
            assert(is_line_end(b@[i as int]));
            true
        },
        None => false,
    }
}

/// The capacity of a single-line field: prefix, value and LF, capped at
/// `usize::MAX`.
fn line_capacity(prefix_len: usize, value_len: usize) -> (r: usize)
    ensures
        r == saturating(prefix_len + value_len + 1),
{
    saturating_add(saturating_add(prefix_len, value_len), 1)
}

impl Sse {
    /// The wire form of the block, or the metadata it cannot hold.
    fn encode_to_vec(&self) -> (r: Result<Vec<u8>, EncodeError>)
        ensures
            match encode_result(self@) {
                Ok(b) => r matches Ok(v) && v@ == b,
                Err(e) => r matches Err(x) && x == e,
            },
    {
        if let Some(value) = &self.event {
            if has_line_end(value.as_str().as_bytes()) {
                return Err(EncodeError::InvalidEvent);
            }
        }
        if let Some(value) = &self.id {
            let bytes = value.as_str().as_bytes();
            if has_line_end(bytes) || contains_byte(bytes, 0u8) {
                return Err(EncodeError::InvalidId);
            }
        }
        let retry = match self.retry {
            Some(n) => {
                let mut digits = Vec::new();
                write_decimal(&mut digits, n);
                assert(digits@ =~= decimal_digits(n as nat));
                Some(digits)
            },
            None => None,
        };
        let data = match &self.data {
            Some(value) => Some(TextLines::new(value.as_str().as_bytes())),
            None => None,
        };
        let event_pre = event_prefix_bytes();
        let data_pre = data_prefix_bytes();
        let id_pre = id_prefix_bytes();
        let retry_pre = retry_prefix_bytes();
        let mut capacity: usize = 1;
        if let Some(value) = &self.event {
            capacity = saturating_add(capacity, line_capacity(event_pre.len(), value.as_str().as_bytes().len()));
        }
        if let Some(lines) = &data {
            capacity = saturating_add(capacity, lines.encoded_len(data_pre.len()));
        }
        if let Some(value) = &self.id {
            capacity = saturating_add(capacity, line_capacity(id_pre.len(), value.as_str().as_bytes().len()));
        }
        if let Some(digits) = &retry {
            capacity = saturating_add(capacity, line_capacity(retry_pre.len(), digits.len()));
        }
        let mut output = Vec::with_capacity(capacity);
        let ghost e = self@;
        if let Some(value) = &self.event {
            write_line(&mut output, event_pre.as_slice(), value.as_str().as_bytes());
        }
        let ghost part1 = output@;
        if let Some(lines) = &data {
            lines.write(&mut output, data_pre.as_slice());
        }
        let ghost part2 = output@;
        if let Some(value) = &self.id {
            write_line(&mut output, id_pre.as_slice(), value.as_str().as_bytes());
        }
        let ghost part3 = output@;
        if let Some(digits) = &retry {
            write_line(&mut output, retry_pre.as_slice(), digits.as_slice());
        }
        let ghost part4 = output@;
        output.push(10u8);
        proof {
            let ev = match e.event {
                Some(v) => line_field(event_prefix(), encode_utf8(v)),
                None => Seq::<u8>::empty(),
            };
            let da = match e.data {
                Some(v) => text_field(data_prefix(), encode_utf8(v)),
                None => Seq::<u8>::empty(),
            };
            let id = match e.id {
                Some(v) => line_field(id_prefix(), encode_utf8(v)),
                None => Seq::<u8>::empty(),
            };
            let re = match e.retry {
                Some(r) => line_field(retry_prefix(), decimal_digits(r as nat)),
                None => Seq::<u8>::empty(),
            };
            assert(part1 =~= ev);
            assert(part2 =~= ev + da);
            assert(part3 =~= ev + da + id);
            assert(part4 =~= ev + da + id + re);
            assert(output@ =~= encode_block(e));
        }
        Ok(output)
    }

    /// Encode a block, normalizing data line endings to LF.
    ///
    /// # Errors
    ///
    /// Returns [`EncodeError`] if the event type or id contains CR/LF, or the
    /// id contains NULL. No bytes are returned for an invalid block.
    pub fn encode(self) -> (r: Result<bytes::Bytes, EncodeError>)
        ensures
            match encode_result(self@) {
                Ok(b) => r matches Ok(x) && bytes_view(x) == b,
                Err(e) => r matches Err(x) && x == e,
            },
            !(self@.event matches Some(v) && (v.contains('\r') || v.contains('\n'))) && !(self@.id matches Some(
                v,
            ) && (v.contains('\r') || v.contains('\n') || v.contains('\0'))) ==> r is Ok,
    {
        proof {
            crate::laws::law_encode_accepts_exactly_representable_metadata(self@);
        }
        match self.encode_to_vec() {
            Ok(output) => Ok(bytes_from_vec(output)),
            Err(error) => Err(error),
        }
    }
}

impl TryFrom<Sse> for bytes::Bytes {
    type Error = EncodeError;

    /// Encode a block, normalizing data line endings to LF.
    ///
    /// # Errors
    ///
    /// Returns [`EncodeError`] if the event type or id contains CR/LF, or the
    /// id contains NULL. These bytes cannot be represented in those SSE fields.
    fn try_from(event: Sse) -> (r: Result<bytes::Bytes, EncodeError>)
        ensures
            match encode_result(event@) {
                Ok(b) => r matches Ok(x) && bytes_view(x) == b,
                Err(e) => r matches Err(x) && x == e,
            },
    {
        event.encode()
    }
}

/// What `Bytes::try_from` gives for a block: a buffer holding its wire form,
/// or the metadata it cannot hold. `obeys_try_from_spec` is false: two buffers
/// holding the same bytes need not be the same value, so the contract that
/// callers use is the `ensures` of the impl above, over `bytes_view`.
impl vstd::std_specs::convert::TryFromSpecImpl<Sse> for bytes::Bytes {
    open spec fn obeys_try_from_spec() -> bool {
        false
    }

    open spec fn try_from_spec(v: Sse) -> Result<bytes::Bytes, EncodeError> {
        match encode_result(v@) {
            Ok(b) => Ok(choose|x: bytes::Bytes| bytes_view(x) == b),
            Err(e) => Err(e),
        }
    }
}

/// Encode a comment: every logical line becomes its own comment line, so a
/// comment cannot inject fields.
pub fn encode_comment_bytes(comment: &str) -> (r: bytes::Bytes)
    ensures
        bytes_view(r) == encode_comment(comment@),
{
    let lines = TextLines::new(comment.as_bytes());
    let prefix = comment_prefix_bytes();
    let capacity = saturating_add(lines.encoded_len(prefix.len()), 1);
    let mut output = Vec::with_capacity(capacity);
    lines.write(&mut output, prefix.as_slice());
    output.push(10u8);
    proof {
        assert(output@ =~= encode_comment(comment@));
    }
    bytes_from_vec(output)
}

/// Text without line endings holds no LF.
proof fn lemma_count_plain(s: Seq<u8>)
    requires
        no_line_end(s),
    ensures
        count_byte(s, 10u8) == 0,
    decreases s.len(),
{
    if s.len() > 0 {
        assert(no_line_end(s.drop_last())) by {
            assert forall|i: int| 0 <= i < s.drop_last().len() implies !is_line_end(#[trigger] s.drop_last()[i]) by {
                assert(s.drop_last()[i] == s[i]);
            }
        }
        lemma_count_plain(s.drop_last());
        assert(!is_line_end(s[s.len() - 1]));
    }
}

} // verus!

use vstd::prelude::*;
use vstd::utf8::{decode_utf8, valid_utf8};

use crate::model::{is_line_end, no_line_end};

verus! {

/// The error that `std::str::from_utf8` reports for invalid bytes: where the
/// valid prefix ends, and how long the invalid sequence is. It depends on the
/// bytes alone.
pub uninterp spec fn utf8_error(v: Seq<u8>) -> std::str::Utf8Error;

/// Calls `std::str::from_utf8`, which accepts exactly the valid UTF-8
/// sequences and then returns a `str` over the same bytes; its error is named
/// `utf8_error`.
#[verifier::external_body]
fn std_from_utf8(v: &[u8]) -> (r: Result<&str, std::str::Utf8Error>)
    ensures
        r is Ok <==> valid_utf8(v@),
        r matches Ok(s) ==> s@ == decode_utf8(v@),
        r matches Err(e) ==> e == utf8_error(v@),
{
    std::str::from_utf8(v)
}

/// Calls `simdutf8::basic::from_utf8`, documented as the analogue of
/// `std::str::from_utf8`: `Some` exactly for valid UTF-8, over the same bytes.
#[verifier::external_body]
fn simd_from_utf8(v: &[u8]) -> (r: Option<&str>)
    ensures
        r is Some <==> valid_utf8(v@),
        r matches Some(s) ==> s@ == decode_utf8(v@),
{
    simdutf8::basic::from_utf8(v).ok()
}

/// Calls `memchr::memchr2`: the index of the first byte equal to either needle.
#[verifier::external_body]
pub(crate) fn memchr2(needle1: u8, needle2: u8, haystack: &[u8]) -> (r: Option<usize>)
    ensures
        match r {
            Some(i) => {
                &&& i < haystack@.len()
                &&& (haystack@[i as int] == needle1 || haystack@[i as int] == needle2)
                &&& forall|j: int|
                    0 <= j < i ==> haystack@[j] != needle1 && haystack@[j] != needle2
            },
            None => forall|j: int|
                0 <= j < haystack@.len() ==> haystack@[j] != needle1 && haystack@[j] != needle2,
        },
{
    memchr::memchr2(needle1, needle2, haystack)
}

/// Validate UTF-8; long values try the SIMD validator first, and every failure
/// is reported by the standard library, with its error details.
pub fn validate_utf8(value: &[u8]) -> (r: Result<&str, std::str::Utf8Error>)
    ensures
        r is Ok <==> valid_utf8(value@),
        r matches Ok(s) ==> s@ == decode_utf8(value@),
        r matches Err(e) ==> e == utf8_error(value@),
{
    if value.len() >= 256 {
        if let Some(text) = simd_from_utf8(value) {
            return Ok(text);
        }
    }
    std_from_utf8(value)
}

/// The outcome of a search for a line ending in `bytes[start..]`.
pub open spec fn line_end_found(bytes: Seq<u8>, start: int, r: Option<usize>) -> bool {
    match r {
        Some(i) => start <= i < bytes.len() && is_line_end(bytes[i as int]) && no_line_end(
            bytes.subrange(start, i as int),
        ),
        None => no_line_end(bytes.subrange(start, bytes.len() as int)),
    }
}

/// Scan `bytes[start..end]` byte by byte for CR or LF.
fn scan_scalar(bytes: &[u8], start: usize, end: usize) -> (r: Option<usize>)
    requires
        start <= end <= bytes.len(),
    ensures
        match r {
            Some(i) => start <= i < end && is_line_end(bytes@[i as int]) && no_line_end(
                bytes@.subrange(start as int, i as int),
            ),
            None => no_line_end(bytes@.subrange(start as int, end as int)),
        },
{
    let mut i = start;
    while i < end
        invariant
            start <= i <= end <= bytes.len(),
            no_line_end(bytes@.subrange(start as int, i as int)),
        decreases end - i,
    {
        if bytes[i] == 10u8 || bytes[i] == 13u8 {
            return Some(i);
        }
        assert(bytes@.subrange(start as int, i + 1) =~= bytes@.subrange(start as int, i as int).push(bytes@[i as int]));
        i = i + 1;
    }
    None
}

/// Search `bytes[start..]` with `memchr2`, offsetting the result.
fn scan_memchr(bytes: &[u8], start: usize) -> (r: Option<usize>)
    requires
        start <= bytes.len(),
    ensures
        line_end_found(bytes@, start as int, r),
{
    let rest = &bytes[start..bytes.len()];
    match memchr2(10u8, 13u8, rest) {
        Some(i) => {
            assert(bytes@.subrange(start as int, start + i) =~= rest@.subrange(0, i as int));
            Some(start + i)
        },
        None => {
            assert(bytes@.subrange(start as int, bytes.len() as int) =~= rest@);
            None
        },
    }
}

/// Find the first CR or LF of a data value in `bytes[start..]`: long values go
/// straight to `memchr2`.
pub fn find_data_line_end(bytes: &[u8], start: usize) -> (r: Option<usize>)
    requires
        start <= bytes.len(),
    ensures
        line_end_found(bytes@, start as int, r),
{
    if bytes.len() - start > 16 {
        return scan_memchr(bytes, start);
    }
    scan_scalar(bytes, start, bytes.len())
}

/// Find the first CR or LF in `bytes[start..]`. The first few bytes are
/// scanned one by one, the rest with `memchr2`: short lines are common.
pub fn find_line_end(bytes: &[u8], start: usize) -> (r: Option<usize>)
    requires
        start <= bytes.len(),
    ensures
        line_end_found(bytes@, start as int, r),
{
    let head_end = if bytes.len() - start > 16 {
        start + 16
    } else {
        bytes.len()
    };
    let head_hit = scan_scalar(bytes, start, head_end);
    if head_end == bytes.len() || head_hit.is_some() {
        return head_hit;
    }
    let r = scan_memchr(bytes, head_end);
    proof {
        let s = bytes@;
        assert(s.subrange(start as int, bytes.len() as int) =~= s.subrange(start as int, head_end as int) + s.subrange(head_end as int, bytes.len() as int));
        match r {
            Some(i) => {
                assert(s.subrange(start as int, i as int) =~= s.subrange(start as int, head_end as int) + s.subrange(head_end as int, i as int));
                let a = s.subrange(start as int, head_end as int);
                let b = s.subrange(head_end as int, i as int);
                assert forall|j: int| 0 <= j < (a + b).len() implies !is_line_end(#[trigger] (a + b)[j]) by {
                    if j < a.len() {
                        assert((a + b)[j] == a[j]);
                    } else {
                        assert((a + b)[j] == b[j - a.len()]);
                    }
                }
            },
            None => {
                let a = s.subrange(start as int, head_end as int);
                let b = s.subrange(head_end as int, bytes.len() as int);
                assert forall|j: int| 0 <= j < (a + b).len() implies !is_line_end(#[trigger] (a + b)[j]) by {
                    if j < a.len() {
                        assert((a + b)[j] == a[j]);
                    } else {
                        assert((a + b)[j] == b[j - a.len()]);
                    }
                }
            },
        }
    }
    r
}

} // verus!

use vstd::prelude::*;
use vstd::string::StringExecFns;
use vstd::utf8::{decode_utf8, valid_utf8};

use super::scan::{utf8_error, validate_utf8};
use crate::error::Error;
use crate::model::join_data;

verus! {

/// Bounds the idle scratch space kept after a line or an event completes.
pub const MAX_RETAINED_CAPACITY: usize = 65536;

/// Calls `Vec::capacity`. What the allocator granted is not stated.
#[verifier::external_body]
pub(crate) fn vec_capacity(v: &Vec<u8>) -> usize {
    v.capacity()
}

/// Calls `String::capacity`. What the allocator granted is not stated.
#[verifier::external_body]
pub(crate) fn string_capacity(s: &String) -> usize {
    s.capacity()
}

/// Empty `v`, keeping its allocation only while it is at most
/// `MAX_RETAINED_CAPACITY` bytes.
pub(crate) fn release_scratch(v: &mut Vec<u8>)
    ensures
        final(v)@ == Seq::<u8>::empty(),
{
    if vec_capacity(v) > MAX_RETAINED_CAPACITY {
        *v = Vec::new();
    } else {
        v.clear();
    }
}

/// The data lines of the block under construction: completed lines, already
/// validated as UTF-8 and joined with LF, and the bytes of an unfinished line.
pub struct DataBuffer {
    text: String,
    has_lines: bool,
    fragment: Vec<u8>,
}

impl DataBuffer {
    /// The completed data lines, joined with LF; `None` before the first one.
    pub closed spec fn lines(&self) -> Option<Seq<char>> {
        if self.has_lines {
            Some(self.text@)
        } else {
            None
        }
    }

    /// Without completed lines the text is empty.
    #[verifier::type_invariant]
    spec fn inv(&self) -> bool {
        !self.has_lines ==> self.text@.len() == 0
    }

    /// The bytes of the unfinished line.
    pub closed spec fn fragment(&self) -> Seq<u8> {
        self.fragment@
    }

    /// The bytes allocated for the data buffer's storage: the completed lines
    /// and the scratch space of the unfinished line, capped at `usize::MAX`.
    /// What the allocator granted is not stated.
    pub fn retained_capacity(&self) -> usize {
        match string_capacity(&self.text).checked_add(vec_capacity(&self.fragment)) {
            Some(n) => n,
            None => usize::MAX,
        }
    }

    pub fn new() -> (r: Self)
        ensures
            r.lines() is None,
            r.fragment() == Seq::<u8>::empty(),
    {
        DataBuffer { text: String::new(), has_lines: false, fragment: Vec::new() }
    }

    fn append_line(text: &mut String, has_lines: &mut bool, line: &str)
        requires
            !*old(has_lines) ==> old(text)@.len() == 0,
        ensures
            *final(has_lines),
            final(text)@ == join_data(if *old(has_lines) { Some(old(text)@) } else { None }, line@),
    {
        if *has_lines {
            let newline = "\n";
            proof {
                reveal_strlit("\n");
            }
            text.append(newline);
        }
        text.append(line);
        *has_lines = true;
    }

    /// Move the unfinished line's bytes out, leaving an empty vector.
    fn take_fragment(&mut self) -> (r: Vec<u8>)
        ensures
            r@ == old(self).fragment(),
            final(self).fragment() == Seq::<u8>::empty(),
            final(self).lines() == old(self).lines(),
    {
        proof {
            use_type_invariant(&*self);
        }
        let mut fragment = Vec::new();
        std::mem::swap(&mut fragment, &mut self.fragment);
        fragment
    }

    /// Append a validated line to the completed lines.
    fn append(&mut self, line: &str)
        ensures
            final(self).lines() == Some(join_data(old(self).lines(), line@)),
            final(self).fragment() == old(self).fragment(),
    {
        proof {
            use_type_invariant(&*self);
        }
        let mut text = String::new();
        std::mem::swap(&mut text, &mut self.text);
        let mut has_lines = self.has_lines;
        Self::append_line(&mut text, &mut has_lines, line);
        self.has_lines = has_lines;
        self.text = text;
    }

    /// Append a complete line, discarding any unfinished one.
    ///
    /// # Errors
    /// Returns a UTF-8 error for an invalid value, changing nothing.
    pub fn push_line(&mut self, value: &[u8]) -> (r: Result<(), Error>)
        ensures
            r is Ok <==> valid_utf8(value@),
            r is Ok ==> final(self).lines() == Some(join_data(old(self).lines(), decode_utf8(value@)))
                && final(self).fragment() == Seq::<u8>::empty(),
            r is Err ==> final(self).lines() == old(self).lines() && final(self).fragment()
                == old(self).fragment(),
            r matches Err(e) ==> e == Error::Utf8Parse(utf8_error(value@)),
    {
        match validate_utf8(value) {
            Ok(line) => {
                let mut fragment = self.take_fragment();
                proof {
                    use_type_invariant(&*self);
                }
                fragment.clear();
                self.fragment = fragment;
                self.append(line);
                Ok(())
            },
            Err(error) => Err(Error::Utf8Parse(error)),
        }
    }

    /// Append bytes to the unfinished line.
    pub fn push_fragment(&mut self, bytes: &[u8])
        ensures
            final(self).lines() == old(self).lines(),
            final(self).fragment() == old(self).fragment() + bytes@,
    {
        let mut fragment = self.take_fragment();
        proof {
            use_type_invariant(&*self);
        }
        fragment.extend_from_slice(bytes);
        self.fragment = fragment;
    }

    /// Complete the unfinished line.
    ///
    /// # Errors
    /// Returns a UTF-8 error and discards the unfinished line if it is invalid.
    pub fn finish_line(&mut self) -> (r: Result<(), Error>)
        ensures
            r is Ok <==> valid_utf8(old(self).fragment()),
            r is Ok ==> final(self).lines() == Some(
                join_data(old(self).lines(), decode_utf8(old(self).fragment())),
            ),
            r is Err ==> final(self).lines() == old(self).lines(),
            final(self).fragment() == Seq::<u8>::empty(),
            r matches Err(e) ==> e == Error::Utf8Parse(utf8_error(old(self).fragment())),
    {
        let mut fragment = self.take_fragment();
        proof {
            use_type_invariant(&*self);
        }
        let result = match validate_utf8(fragment.as_slice()) {
            Ok(line) => {
                self.append(line);
                Ok(())
            },
            Err(error) => Err(Error::Utf8Parse(error)),
        };
        release_scratch(&mut fragment);
        self.fragment = fragment;
        result
    }

    /// Hand out the completed lines and start over. An unfinished line is
    /// never exposed.
    pub fn take(&mut self) -> (r: Option<String>)
        ensures
            crate::event::opt_text(r) == old(self).lines(),
            final(self).lines() is None,
            final(self).fragment() == Seq::<u8>::empty(),
    {
        let mut fragment = self.take_fragment();
        proof {
            use_type_invariant(&*self);
        }
        release_scratch(&mut fragment);
        self.fragment = fragment;
        if !self.has_lines {
            return None;
        }
        let mut text = String::new();
        std::mem::swap(&mut text, &mut self.text);
        self.has_lines = false;
        Some(text)
    }
}

impl Default for DataBuffer {
    fn default() -> (r: Self)
        ensures
            r.lines() is None,
            r.fragment() == Seq::<u8>::empty(),
    {
        Self::new()
    }
}

} // verus!

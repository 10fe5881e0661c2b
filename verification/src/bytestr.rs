//! An immutable shared text buffer: UTF-8 by construction, cheap to hand
//! around, and copied on write. An in-place edit builds a fresh buffer and
//! replaces the old one, so other holders of the same text are unaffected.

use vstd::prelude::*;
use vstd::string::{StrSliceExecFns, StringExecFns};

verus! {

/// A validated UTF-8 text buffer. Its view is its character sequence.
#[derive(Debug, Clone, PartialEq, Eq, Hash)]
pub struct ByteStr(String);

impl View for ByteStr {
    type V = Seq<char>;

    closed spec fn view(&self) -> Seq<char> {
        self.0@
    }
}

/// Relies on `String::push`: appends exactly one character.
#[verifier::external_body]
fn push_char(s: &mut String, ch: char)
    ensures
        final (s)@ == old(s)@.push(ch),
{
    s.push(ch);
}

impl ByteStr {
    /// Builds from statically known text.
    pub fn from_static(s: &'static str) -> (r: ByteStr)
        ensures
            r@ == s@,
    {
        ByteStr(s.to_owned())
    }

    /// Copies the given text.
    pub fn new(s: &str) -> (r: ByteStr)
        ensures
            r@ == s@,
    {
        ByteStr(s.to_owned())
    }

    /// Borrows the text; constant time, no copy.
    pub fn as_str(&self) -> (r: &str)
        ensures
            r@ == self@,
    {
        self.0.as_str()
    }

    /// Inserts one character before character position `idx`, allocating
    /// a fresh buffer; other holders of the old buffer keep the old text.
    pub fn insert(&mut self, idx: usize, ch: char)
        requires
            idx <= old(self)@.len(),
        ensures
            final (self)@ == old(self)@.subrange(0, idx as int) + seq![ch] + old(self)@.subrange(
                idx as int,
                old(self)@.len() as int,
            ),
    {
        let n = self.0.as_str().unicode_len();
        let mut out = self.0.as_str().substring_char(0, idx).to_owned();
        push_char(&mut out, ch);
        let back = self.0.as_str().substring_char(idx, n);
        out.append(back);
        proof {
            assert(out@ =~= self@.subrange(0, idx as int) + seq![ch] + self@.subrange(
                idx as int,
                self@.len() as int,
            ));
        }
        self.0 = out;
    }

    /// The text's UTF-8 bytes, consuming the buffer.
    pub fn into_bytes(self) -> (r: Vec<u8>)
        ensures
            r@ == vstd::utf8::encode_utf8(self@),
    {
        self.0.as_str().as_bytes_vec()
    }
}

} // verus!

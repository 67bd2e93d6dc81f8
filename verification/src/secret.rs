//! Buffers that are overwritten before their memory is given back.
use vstd::prelude::*;
use zeroize::Zeroize;

verus! {

/// `zeroize::Zeroize::zeroize` on a `String`: overwrites the whole buffer with
/// zeros and leaves the text empty.
#[verifier::external_body]
pub(crate) fn wipe_text(s: &mut String)
    ensures
        final(s)@ == Seq::<char>::empty(),
    opens_invariants none
    no_unwind
{
    s.zeroize();
}

/// `zeroize::Zeroize::zeroize` on a vector of bytes: overwrites the whole
/// buffer with zeros and leaves the vector empty.
#[verifier::external_body]
pub(crate) fn wipe_bytes(v: &mut Vec<u8>)
    ensures
        final(v)@ == Seq::<u8>::empty(),
    opens_invariants none
    no_unwind
{
    v.zeroize();
}

/// `zeroize::Zeroize::zeroize` on a vector of characters: overwrites the whole
/// buffer with zeros and leaves the vector empty.
#[verifier::external_body]
pub(crate) fn wipe_chars(v: &mut Vec<char>)
    ensures
        final(v)@ == Seq::<char>::empty(),
    opens_invariants none
    no_unwind
{
    v.zeroize();
}

/// Bytes that are overwritten when the value is dropped.
pub struct SecretBytes {
    bytes: Vec<u8>,
}

impl View for SecretBytes {
    type V = Seq<u8>;

    closed spec fn view(&self) -> Seq<u8> {
        self.bytes@
    }
}

impl SecretBytes {
    pub fn new(bytes: Vec<u8>) -> (r: Self)
        ensures
            r@ == bytes@,
    {
        SecretBytes { bytes }
    }

    pub fn as_slice(&self) -> (r: &[u8])
        ensures
            r@ == self@,
    {
        self.bytes.as_slice()
    }

    pub fn len(&self) -> (r: usize)
        ensures
            r == self@.len(),
    {
        self.bytes.len()
    }

    /// Overwrites and empties the buffer.
    pub fn wipe(&mut self)
        ensures
            final(self)@ == Seq::<u8>::empty(),
        opens_invariants none
        no_unwind
    {
        wipe_bytes(&mut self.bytes);
    }
}

impl Drop for SecretBytes {
    fn drop(&mut self)
        opens_invariants none
        no_unwind
    {
        self.wipe();
    }
}

impl std::ops::Deref for SecretBytes {
    type Target = [u8];

    fn deref(&self) -> (r: &[u8])
        ensures
            r@ == self@,
    {
        self.bytes.as_slice()
    }
}

/// Text that is overwritten when the value is dropped.
pub struct SecretText {
    text: String,
}

impl View for SecretText {
    type V = Seq<char>;

    closed spec fn view(&self) -> Seq<char> {
        self.text@
    }
}

impl SecretText {
    pub fn new(text: String) -> (r: Self)
        ensures
            r@ == text@,
    {
        SecretText { text }
    }

    pub fn as_str(&self) -> (r: &str)
        ensures
            r@ == self@,
    {
        self.text.as_str()
    }

    /// Overwrites and empties the buffer.
    pub fn wipe(&mut self)
        ensures
            final(self)@ == Seq::<char>::empty(),
        opens_invariants none
        no_unwind
    {
        wipe_text(&mut self.text);
    }
}

impl Drop for SecretText {
    fn drop(&mut self)
        opens_invariants none
        no_unwind
    {
        self.wipe();
    }
}

impl std::ops::Deref for SecretText {
    type Target = str;

    fn deref(&self) -> (r: &str)
        ensures
            r@ == self@,
    {
        self.text.as_str()
    }
}

/// The characters of a text, overwritten when the value is dropped.
pub struct SecretChars {
    chars: Vec<char>,
}

impl View for SecretChars {
    type V = Seq<char>;

    closed spec fn view(&self) -> Seq<char> {
        self.chars@
    }
}

impl SecretChars {
    pub fn of(text: &str) -> (r: Self)
        ensures
            r@ == text@,
    {
        SecretChars { chars: crate::text::chars_of(text) }
    }

    pub fn as_slice(&self) -> (r: &[char])
        ensures
            r@ == self@,
    {
        self.chars.as_slice()
    }
}

impl Drop for SecretChars {
    fn drop(&mut self)
        opens_invariants none
        no_unwind
    {
        wipe_chars(&mut self.chars);
    }
}

} // verus!

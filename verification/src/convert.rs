//! Values that can be given where text or bytes are asked for.

use crate::frame;
use std::borrow::Cow;
use vstd::prelude::*;
use vstd::utf8::*;

verus! {

/// What can be given as text.
pub trait IntoText: Sized {
    /// The text that is given.
    spec fn text(self) -> Seq<char>;

    /// Hands over the text.
    fn into_text(self) -> (s: String)
        ensures
            s@ == self.text(),
    ;
}

impl IntoText for String {
    open spec fn text(self) -> Seq<char> {
        self@
    }

    fn into_text(self) -> (s: String) {
        self
    }
}

impl<'a> IntoText for &'a str {
    open spec fn text(self) -> Seq<char> {
        self@
    }

    fn into_text(self) -> (s: String) {
        self.to_string()
    }
}

impl<'a> IntoText for &'a String {
    open spec fn text(self) -> Seq<char> {
        self@
    }

    fn into_text(self) -> (s: String) {
        self.clone()
    }
}

impl<'a> IntoText for Cow<'a, str> {
    open spec fn text(self) -> Seq<char> {
        self@
    }

    fn into_text(self) -> (s: String) {
        frame::cow_text(&self).to_string()
    }
}

impl IntoText for Box<str> {
    open spec fn text(self) -> Seq<char> {
        self@
    }

    fn into_text(self) -> (s: String) {
        let text: &str = &self;
        text.to_string()
    }
}

/// A text of one character.
///
/// Calls `String::from` on a `char`. What is claimed of it: the text holds the
/// character, and nothing else.
#[verifier::external_body]
fn character_text(c: char) -> (s: String)
    ensures
        s@ == seq![c],
{
    String::from(c)
}

impl IntoText for char {
    open spec fn text(self) -> Seq<char> {
        seq![self]
    }

    fn into_text(self) -> (s: String) {
        character_text(self)
    }
}

/// What can be given as bytes.
pub trait IntoBytes: Sized {
    /// The bytes that are given.
    spec fn bytes(self) -> Seq<u8>;

    /// Hands over the bytes.
    fn into_bytes(self) -> (v: Vec<u8>)
        ensures
            v@ == self.bytes(),
    ;
}

impl IntoBytes for Vec<u8> {
    open spec fn bytes(self) -> Seq<u8> {
        self@
    }

    fn into_bytes(self) -> (v: Vec<u8>) {
        self
    }
}

impl<'a> IntoBytes for &'a [u8] {
    open spec fn bytes(self) -> Seq<u8> {
        self@
    }

    fn into_bytes(self) -> (v: Vec<u8>) {
        frame::copy_bytes(self)
    }
}

impl<'a> IntoBytes for &'a str {
    open spec fn bytes(self) -> Seq<u8> {
        encode_utf8(self@)
    }

    fn into_bytes(self) -> (v: Vec<u8>) {
        frame::copy_bytes(self.as_bytes())
    }
}

impl IntoBytes for String {
    open spec fn bytes(self) -> Seq<u8> {
        encode_utf8(self@)
    }

    fn into_bytes(self) -> (v: Vec<u8>) {
        frame::copy_bytes(self.as_str().as_bytes())
    }
}

impl<const N: usize> IntoBytes for [u8; N] {
    open spec fn bytes(self) -> Seq<u8> {
        self@
    }

    fn into_bytes(self) -> (v: Vec<u8>) {
        frame::copy_bytes(self.as_slice())
    }
}

impl<'a, const N: usize> IntoBytes for &'a [u8; N] {
    open spec fn bytes(self) -> Seq<u8> {
        self@
    }

    fn into_bytes(self) -> (v: Vec<u8>) {
        frame::copy_bytes(self.as_slice())
    }
}

impl<'a> IntoBytes for Cow<'a, [u8]> {
    open spec fn bytes(self) -> Seq<u8> {
        self@
    }

    fn into_bytes(self) -> (v: Vec<u8>) {
        frame::copy_bytes(frame::cow_bytes(&self))
    }
}

impl IntoBytes for Box<[u8]> {
    open spec fn bytes(self) -> Seq<u8> {
        self@
    }

    fn into_bytes(self) -> (v: Vec<u8>) {
        let bytes: &[u8] = &self;
        frame::copy_bytes(bytes)
    }
}

/// What is given as text or as bytes is taken as it is; text that is given as
/// bytes, as its encoding in UTF-8.
pub proof fn what_is_given_is_taken_as_it_is(
    owned: String,
    borrowed: &str,
    either: Cow<'_, str>,
    c: char,
    vector: Vec<u8>,
    slice: &[u8],
    some: Cow<'_, [u8]>,
)
    ensures
        owned.text() == owned@,
        (&owned).text() == owned@,
        borrowed.text() == borrowed@,
        either.text() == either@,
        c.text() == seq![c],
        IntoBytes::bytes(owned) == encode_utf8(owned@),
        IntoBytes::bytes(borrowed) == encode_utf8(borrowed@),
        vector.bytes() == vector@,
        IntoBytes::bytes(slice) == slice@,
        some.bytes() == some@,
{
}

} // verus!

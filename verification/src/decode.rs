//! Making text from bytes and code units that may not be text.

use std::string::{FromUtf16Error, FromUtf8Error};
use vstd::prelude::*;
use vstd::utf8::{encode_utf8, valid_utf8};

verus! {

/// Why a sequence of bytes or code units could not be taken as text.
#[derive(Clone, Copy, Debug, PartialEq, Eq)]
pub enum DecodeFault {
    /// The bytes are not valid UTF-8.
    Utf8,
    /// The code units are not valid UTF-16.
    Utf16,
}

/// The error of `String::from_utf8`, of which nothing is read.
#[verifier::external_type_specification]
#[verifier::external_body]
pub struct ExFromUtf8Error(FromUtf8Error);

/// The error of `String::from_utf16`, of which nothing is read.
#[verifier::external_type_specification]
#[verifier::external_body]
pub struct ExFromUtf16Error(FromUtf16Error);

/// The characters that a sequence of UTF-16 code units stands for, or `None`
/// when the sequence is not valid UTF-16.
pub uninterp spec fn utf16_text(units: Seq<u16>) -> Option<Seq<char>>;

/// `String::from_utf8`: succeeds on valid UTF-8 and on nothing else, and the
/// string it gives then holds the very bytes it was given.
#[verifier::external_body]
pub(crate) fn string_from_utf8(bytes: Vec<u8>) -> (res: Result<String, FromUtf8Error>)
    ensures
        res is Ok <==> valid_utf8(bytes@),
        res matches Ok(s) ==> encode_utf8(s@) == bytes@,
{
    String::from_utf8(bytes)
}

/// `String::from_utf16`: the string of the characters that the code units
/// stand for, or an error when they are not valid UTF-16.
#[verifier::external_body]
pub(crate) fn string_from_utf16(units: &[u16]) -> (res: Result<String, FromUtf16Error>)
    ensures
        res is Ok <==> utf16_text(units@) is Some,
        res matches Ok(s) ==> utf16_text(units@) == Some(s@),
{
    String::from_utf16(units)
}

/// `String::from` on a `char`: the string of that one character.
#[verifier::external_body]
pub(crate) fn string_of_char(ch: char) -> (res: String)
    ensures
        res@ == seq![ch],
{
    String::from(ch)
}

} // verus!

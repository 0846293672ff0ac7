//! Turning "no word" into an error for callers that need a word to go on,
//! and the bytes of a word into text.

use crate::position::Cursor;
use vstd::prelude::*;
use vstd::utf8::{decode_utf8, valid_utf8};

verus! {

/// Why a word that a caller needed was not there. Each kind carries the label
/// that the caller gave: the rule it was working on.
#[derive(Debug, PartialEq, Eq)]
pub enum WordError {
    /// The stream ended where the rule expected another word.
    UnexpectedEndOfFile(String),
    /// The current word was asked for before any word was handed out: a fault
    /// of the caller, not of the input.
    ContractViolation(String),
    /// The bytes of the word at this position are not valid UTF-8.
    InvalidText(Cursor),
}

/// `String::from_utf8` of std, with its error dropped. What is taken on
/// trust: the result is `Some` exactly where `bytes` are valid UTF-8, and then
/// holds the characters that they encode.
#[verifier::external_body]
fn text_of_bytes(bytes: Vec<u8>) -> (r: Option<String>)
    ensures
        r is Some <==> valid_utf8(bytes@),
        r matches Some(s) ==> s@ == decode_utf8(bytes@),
{
    String::from_utf8(bytes).ok()
}

/// The word as text, at the same position; the error names the position of a
/// word whose bytes are not valid UTF-8.
pub fn word_text(word: (Vec<u8>, Cursor)) -> (r: Result<(String, Cursor), WordError>)
    ensures
        match r {
            Ok(t) => valid_utf8(word.0@) && t.0@ == decode_utf8(word.0@) && t.1 == word.1,
            Err(e) => !valid_utf8(word.0@) && e == WordError::InvalidText(word.1),
        },
{
    let (bytes, cursor) = word;
    match text_of_bytes(bytes) {
        Some(text) => Ok((text, cursor)),
        None => Err(WordError::InvalidText(cursor)),
    }
}

/// The next word, or the error that the stream ended while `rule` expected one.
pub fn require_next(found: Option<(Vec<u8>, Cursor)>, rule: &str) -> (r: Result<
    (Vec<u8>, Cursor),
    WordError,
>)
    ensures
        match found {
            Some(w) => r == Ok::<(Vec<u8>, Cursor), WordError>(w),
            None => r matches Err(WordError::UnexpectedEndOfFile(label)) && label@ == rule@,
        },
{
    match found {
        Some(w) => Ok(w),
        None => Err(WordError::UnexpectedEndOfFile(rule.to_owned())),
    }
}

/// The current word, or the error that `rule` asked for it before any word was
/// handed out.
pub fn require_current(found: Option<(Vec<u8>, Cursor)>, rule: &str) -> (r: Result<
    (Vec<u8>, Cursor),
    WordError,
>)
    ensures
        match found {
            Some(w) => r == Ok::<(Vec<u8>, Cursor), WordError>(w),
            None => r matches Err(WordError::ContractViolation(label)) && label@ == rule@,
        },
{
    match found {
        Some(w) => Ok(w),
        None => Err(WordError::ContractViolation(rule.to_owned())),
    }
}

} // verus!

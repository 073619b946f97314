//! Calls into code that is not verified here.
//!
//! Every function of this module does nothing but call the standard library,
//! or the `atoi` or `glob` crates, and states what the call is taken to
//! return. Those statements are believed, not proved; the rest of the library
//! is proved from them.

use vstd::prelude::*;
use vstd::string::*;
use vstd::utf8::*;
use crate::text::{digits_value, is_digit, is_sign, number_text};

verus! {

/// The index of the first byte of `text`, at or after `from`, that is not a
/// digit; `text.len()` when every byte from there on is one.
pub open spec fn digit_run(text: Seq<u8>, from: int) -> int
    decreases text.len() - from,
{
    if 0 <= from < text.len() && is_digit(text[from]) {
        digit_run(text, from + 1)
    } else {
        from
    }
}

/// What `atoi` reads at the front of `text`: an optional sign and the digits
/// that follow it, as an integer. It reads nothing where `text` starts with
/// neither; a sign without digits reads as zero. Bytes behind the digits are
/// ignored.
pub open spec fn atoi_reading(text: Seq<u8>) -> Option<int> {
    let start: int = if text.len() > 0 && is_sign(text[0]) { 1 } else { 0 };
    let end = digit_run(text, start);
    if end == 0 {
        None
    } else {
        let magnitude = digits_value(text.subrange(start, end)) as int;
        Some(if text[0] == 45 { -magnitude } else { magnitude })
    }
}

/// `atoi::atoi::<i64>`: the integer read at the front of `text`, or `None`
/// where nothing is read or the integer does not fit an `i64`.
#[verifier::external_body]
pub(crate) fn atoi_i64(text: &[u8]) -> (r: Option<i64>)
    ensures
        r == match atoi_reading(text@) {
            Some(v) => if i64::MIN <= v <= i64::MAX { Some(v as i64) } else { None },
            None => None,
        },
{
    atoi::atoi::<i64>(text)
}

/// `atoi::atoi::<usize>`: the integer read at the front of `text`, or `None`
/// where nothing is read or the integer does not fit a `usize`.
#[verifier::external_body]
pub(crate) fn atoi_usize(text: &[u8]) -> (r: Option<usize>)
    ensures
        r == match atoi_reading(text@) {
            Some(v) => if 0 <= v <= usize::MAX { Some(v as usize) } else { None },
            None => None,
        },
{
    atoi::atoi::<usize>(text)
}

/// The text that `String::from_utf8_lossy` makes of bytes that are not valid
/// UTF-8.
pub uninterp spec fn lossy_text(bytes: Seq<u8>) -> Seq<char>;

/// The text that bytes are read as: the text they encode where they are valid
/// UTF-8, and otherwise what lossy decoding makes of them.
pub open spec fn text_of(bytes: Seq<u8>) -> Seq<char> {
    if valid_utf8(bytes) {
        decode_utf8(bytes)
    } else {
        lossy_text(bytes)
    }
}

/// `String::from_utf8_lossy`: valid UTF-8 is decoded as it stands; of other
/// bytes only that the result depends on the bytes alone.
#[verifier::external_body]
pub(crate) fn lossy_string(bytes: &[u8]) -> (r: String)
    ensures
        valid_utf8(bytes@) ==> r@ == decode_utf8(bytes@),
        !valid_utf8(bytes@) ==> r@ == lossy_text(bytes@),
{
    String::from_utf8_lossy(bytes).into_owned()
}

/// What `String::from_utf8` finds wrong with bytes that are not valid UTF-8,
/// in the words of the error it returns.
pub uninterp spec fn utf8_fault(bytes: Seq<u8>) -> Seq<char>;

/// `String::from_utf8`: succeeds on valid UTF-8 and on nothing else, with the
/// text that the bytes encode; where it fails, the message of its error.
#[verifier::external_body]
pub(crate) fn string_from_utf8(bytes: Vec<u8>) -> (r: Result<String, String>)
    ensures
        match r {
            Ok(s) => valid_utf8(bytes@) && s@ == decode_utf8(bytes@),
            Err(message) => !valid_utf8(bytes@) && message@ == utf8_fault(bytes@),
        },
{
    match String::from_utf8(bytes) {
        Ok(s) => Ok(s),
        Err(e) => Err(e.to_string()),
    }
}

/// The upper-case form that `str::to_uppercase` gives a text.
pub uninterp spec fn uppercase_of(s: Seq<char>) -> Seq<char>;

/// `str::to_uppercase`.
#[verifier::external_body]
pub(crate) fn uppercase(s: &str) -> (r: String)
    ensures
        r@ == uppercase_of(s@),
{
    s.to_uppercase()
}

/// What `str::trim` leaves of a text.
pub uninterp spec fn trimmed(s: Seq<char>) -> Seq<char>;

/// `str::trim`.
#[verifier::external_body]
pub(crate) fn trim(s: &str) -> (r: &str)
    ensures
        r@ == trimmed(s@),
{
    s.trim()
}

/// What `str::parse::<i64>` finds wrong with a text that it does not read
/// as an integer, in the words of the error it returns.
pub uninterp spec fn integer_fault(text: Seq<char>) -> Seq<char>;

/// `str::parse::<i64>`: succeeds on an optional sign followed by digits only,
/// at least one, whose value fits an `i64`, and on nothing else; where it
/// fails, the message of its error.
#[verifier::external_body]
pub(crate) fn parse_i64(s: &str) -> (r: Result<i64, String>)
    ensures
        match r {
            Ok(n) => number_text(s.spec_bytes()) == Some(n as int),
            Err(message) => !(number_text(s.spec_bytes()) matches Some(v) && i64::MIN <= v
                <= i64::MAX) && message@ == integer_fault(s@),
        },
{
    match s.parse::<i64>() {
        Ok(n) => Ok(n),
        Err(e) => Err(e.to_string()),
    }
}

/// `str::parse::<u64>`: succeeds on an optional `+` followed by digits only,
/// at least one, whose value fits a `u64`, and on nothing else.
#[verifier::external_body]
pub(crate) fn parse_u64(s: &str) -> (r: Option<u64>)
    ensures
        r is Some <==> (number_text(s.spec_bytes()) matches Some(v) && s.spec_bytes()[0] != 45 && v
            <= u64::MAX),
        r matches Some(n) ==> number_text(s.spec_bytes()) == Some(n as int),
{
    s.parse::<u64>().ok()
}

/// A pattern that `glob::Pattern::new` compiled.
#[verifier::external_type_specification]
#[verifier::external_body]
pub struct ExPattern(glob::Pattern);

/// What `glob::Pattern::new` finds wrong with a pattern, in the words of the
/// error it returns; `None` where it accepts the pattern. It stands for the
/// result on the platform that the library is built for.
pub uninterp spec fn glob_fault(pattern: Seq<char>) -> Option<Seq<char>>;

/// Whether `glob::Pattern::new` accepts a pattern.
pub open spec fn glob_accepts(pattern: Seq<char>) -> bool {
    glob_fault(pattern) is None
}

/// The text that a compiled pattern was compiled from, which
/// `glob::Pattern::as_str` gives back.
pub uninterp spec fn pattern_source(compiled: glob::Pattern) -> Seq<char>;

/// `glob::Pattern::new`: the compiled pattern, which keeps the text it was
/// compiled from, or the message of the error.
#[verifier::external_body]
pub(crate) fn compile_pattern(pattern: &str) -> (r: Result<glob::Pattern, String>)
    ensures
        match r {
            Ok(compiled) => glob_fault(pattern@) is None && pattern_source(compiled) == pattern@,
            Err(message) => glob_fault(pattern@) == Some(message@),
        },
{
    match glob::Pattern::new(pattern) {
        Ok(compiled) => Ok(compiled),
        Err(e) => Err(e.to_string()),
    }
}

/// Whether the pattern compiled from `pattern` matches a text, by
/// `glob::Pattern::matches`, on the platform that the library is built for.
pub uninterp spec fn glob_matches(pattern: Seq<char>, text: Seq<char>) -> bool;

/// `glob::Pattern::matches`.
#[verifier::external_body]
pub(crate) fn pattern_matches(compiled: &glob::Pattern, text: &str) -> (r: bool)
    ensures
        r == glob_matches(pattern_source(*compiled), text@),
{
    compiled.matches(text)
}

} // verus!

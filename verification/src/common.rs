//! Conversions from raw bytes.

use vstd::prelude::*;
use vstd::string::*;
use vstd::slice::slice_to_vec;
use vstd::utf8::{decode_utf8, valid_utf8};
use crate::err::{CommandErrorView, RedisCommandError};
use crate::text::number_text;
use crate::trusted::{integer_fault, parse_i64, string_from_utf8, trim, trimmed, utf8_fault};

verus! {

/// The text that `bytes` encode in UTF-8, or `InvalidUtf8` where they encode
/// none.
pub fn bytes_to_string(bytes: &[u8]) -> (r: Result<String, RedisCommandError>)
    ensures
        match r {
            Ok(s) => valid_utf8(bytes@) && s@ == decode_utf8(bytes@),
            Err(e) => !valid_utf8(bytes@) && e@ == CommandErrorView::InvalidUtf8(utf8_fault(bytes@)),
        },
{
    match string_from_utf8(slice_to_vec(bytes)) {
        Ok(s) => Ok(s),
        Err(message) => Err(RedisCommandError::InvalidUtf8(message)),
    }
}

/// The integer that a text writes in decimal, once the white space around
/// the text is trimmed off.
pub open spec fn trimmed_integer(text: Seq<char>) -> Option<int> {
    number_text(vstd::utf8::encode_utf8(trimmed(text)))
}

/// The integer that `bytes` write in decimal, white space around it set
/// aside: `InvalidUtf8` where the bytes are no text, `NotInteger` where the
/// text is no integer or one that does not fit 64 bits.
pub fn bytes_to_i64(bytes: &[u8]) -> (r: Result<i64, RedisCommandError>)
    ensures
        match r {
            Ok(n) => valid_utf8(bytes@) && trimmed_integer(decode_utf8(bytes@)) == Some(n as int),
            Err(e) => if valid_utf8(bytes@) {
                !(trimmed_integer(decode_utf8(bytes@)) matches Some(v) && i64::MIN <= v <= i64::MAX)
                    && e@ == CommandErrorView::NotInteger(
                    integer_fault(trimmed(decode_utf8(bytes@))),
                )
            } else {
                e@ == CommandErrorView::InvalidUtf8(utf8_fault(bytes@))
            },
        },
{
    let text = bytes_to_string(bytes)?;
    let inner = trim(text.as_str());
    match parse_i64(inner) {
        Ok(n) => Ok(n),
        Err(message) => Err(RedisCommandError::NotInteger(message)),
    }
}

} // verus!

//! Text: the two steps from bytes to `String` that the standard library
//! does for the rest of the crate.

use crate::decimal::decimal;
use crate::decimal::push_decimal;
use vstd::prelude::*;
use vstd::utf8::decode_utf8;
use vstd::utf8::valid_utf8;

verus! {

/// Appends one character with `String::push`.
///
/// Trusted: the string afterwards is the string before with `c` at its end.
#[verifier::external_body]
pub(crate) fn push_char(text: &mut String, c: char)
    ensures
        final(text)@ == old(text)@.push(c),
{
    text.push(c)
}

/// Turns bytes into text with `String::from_utf8`.
///
/// Trusted: the conversion succeeds exactly on valid UTF-8, and the text
/// then holds the characters that the bytes encode.
#[verifier::external_body]
pub(crate) fn text_from_utf8(bytes: Vec<u8>) -> (text: Option<String>)
    ensures
        text is Some <==> valid_utf8(bytes@),
        text matches Some(t) ==> t@ == decode_utf8(bytes@),
{
    match String::from_utf8(bytes) {
        Ok(t) => Some(t),
        Err(_) => None,
    }
}

/// The characters of a run of ASCII bytes.
pub open spec fn ascii_text(bytes: Seq<u8>) -> Seq<char> {
    Seq::new(bytes.len(), |i: int| bytes[i] as char)
}

/// The decimal numeral of `n` as text.
pub open spec fn decimal_text(n: nat) -> Seq<char> {
    ascii_text(decimal(n))
}

/// Appends the decimal numeral of `n`.
pub fn push_number(text: &mut String, n: u64)
    ensures
        final(text)@ == old(text)@ + decimal_text(n as nat),
{
    let mut digits: Vec<u8> = Vec::new();
    push_decimal(&mut digits, n);
    assert(digits@ =~= decimal(n as nat));
    let mut i: usize = 0;
    while i < digits.len()
        invariant
            i <= digits@.len(),
            text@ == old(text)@ + ascii_text(digits@).subrange(0, i as int),
        decreases digits@.len() - i,
    {
        push_char(text, digits[i] as char);
        i = i + 1;
        assert(text@ =~= old(text)@ + ascii_text(digits@).subrange(0, i as int));
    }
    assert(ascii_text(digits@).subrange(0, i as int) =~= ascii_text(digits@));
}

} // verus!

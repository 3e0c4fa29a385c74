//! The decoder: recursive descent over a cursor into the input.

use crate::bencode::grammar::decoded;
use crate::bencode::grammar::digits_end;
use crate::bencode::grammar::key_position;
use crate::bencode::grammar::lemma_digits_end_step;
use crate::bencode::grammar::lemma_digits_value_step;
use crate::bencode::grammar::lemma_key_position;
use crate::bencode::grammar::lemma_with_entry_distinct;
use crate::bencode::grammar::parse_bytes;
use crate::bencode::grammar::parse_entries;
use crate::bencode::grammar::parse_integer;
use crate::bencode::grammar::parse_items;
use crate::bencode::grammar::parse_value;
use crate::bencode::grammar::with_entry;
use crate::bencode::grammar::COLON;
use crate::bencode::grammar::DICT_START;
use crate::bencode::grammar::END;
use crate::bencode::grammar::INT_START;
use crate::bencode::grammar::LIST_START;
use crate::bencode::grammar::MINUS;
use crate::bencode::value::distinct_keys;
use crate::bencode::value::entries_view;
use crate::bencode::value::has_key;
use crate::bencode::value::items_view;
use crate::bencode::value::lemma_dictionary_view;
use crate::bencode::value::lemma_list_view;
use crate::bencode::value::Bencode;
use crate::bencode::value::BencodeValue;
use crate::decimal::digits_value;
use crate::decimal::is_digit;
use crate::error::Error;
use crate::octets::copy_range;
use crate::octets::same_bytes;
use vstd::prelude::*;
use vstd::slice::slice_subrange;

verus! {

/// Reads the digits that start at `at`: where they end, and the number they
/// spell unless it is too large for 64 bits.
fn scan_digits(input: &[u8], at: usize) -> (found: (usize, Option<u64>))
    requires
        at <= input.len(),
    ensures
        found.0 == digits_end(input@, at as int),
        at <= found.0 <= input.len(),
        match found.1 {
            Some(n) => n == digits_value(input@.subrange(at as int, found.0 as int)),
            None => digits_value(input@.subrange(at as int, found.0 as int)) > u64::MAX,
        },
{
    let mut end: usize = at;
    let mut value: u64 = 0;
    let mut fits: bool = true;
    assert(input@.subrange(at as int, at as int) =~= Seq::<u8>::empty());
    while end < input.len() && input[end] >= 48 && input[end] <= 57
        invariant
            at <= end <= input.len(),
            forall|k: int| at <= k < end ==> is_digit(input@[k]),
            fits ==> value == digits_value(input@.subrange(at as int, end as int)),
            !fits ==> digits_value(input@.subrange(at as int, end as int)) > u64::MAX,
        decreases input.len() - end,
    {
        let digit: u64 = (input[end] - 48) as u64;
        proof {
            lemma_digits_value_step(input@, at as int, end as int);
        }
        if fits {
            if value > (u64::MAX - digit) / 10 {
                fits = false;
            } else {
                value = value * 10 + digit;
            }
        }
        end = end + 1;
    }
    proof {
        lemma_digits_end_step(input@, at as int, end as int);
    }
    if fits {
        (end, Some(value))
    } else {
        (end, None)
    }
}

/// Decodes the byte string that starts at `at`.
fn decode_bytes(input: &[u8], at: usize) -> (outcome: Result<(Vec<u8>, usize), Error>)
    requires
        at < input.len(),
    ensures
        match parse_bytes(input@, at as int) {
            Ok((bytes, next)) => outcome matches Ok((b, n)) && b@ == bytes && n == next && at < n
                <= input.len(),
            Err(e) => outcome matches Err(f) && f == e,
        },
{
    let (colon, length): (usize, Option<u64>) = scan_digits(input, at);
    if colon == at || colon >= input.len() || input[colon] != COLON {
        return Err(Error::MalformedEncoding);
    }
    let available: usize = input.len() - colon - 1;
    match length {
        None => Err(Error::MalformedEncoding),
        Some(n) => {
            if n > available as u64 {
                return Err(Error::MalformedEncoding);
            }
            let start: usize = colon + 1;
            let end: usize = start + n as usize;
            Ok((copy_range(input, start, end), end))
        },
    }
}

/// Decodes the integer that starts at `at`.
fn decode_integer(input: &[u8], at: usize) -> (outcome: Result<(i64, usize), Error>)
    requires
        at < input.len(),
        input@[at as int] == INT_START,
    ensures
        match parse_integer(input@, at as int) {
            Ok((number, next)) => outcome matches Ok((i, n)) && i == number && n == next && at < n
                <= input.len(),
            Err(e) => outcome matches Err(f) && f == e,
        },
{
    let negative: bool = at + 1 < input.len() && input[at + 1] == MINUS;
    let start: usize = if negative {
        at + 2
    } else {
        at + 1
    };
    let (end, magnitude): (usize, Option<u64>) = scan_digits(input, start);
    if end == start || end >= input.len() || input[end] != END {
        return Err(Error::MalformedEncoding);
    }
    match magnitude {
        None => Err(Error::MalformedEncoding),
        Some(m) => {
            if negative {
                if m > 0x8000_0000_0000_0000 {
                    Err(Error::MalformedEncoding)
                } else if m == 0x8000_0000_0000_0000 {
                    Ok((i64::MIN, end + 1))
                } else {
                    Ok((-(m as i64), end + 1))
                }
            } else if m > 0x7fff_ffff_ffff_ffff {
                Err(Error::MalformedEncoding)
            } else {
                Ok((m as i64, end + 1))
            }
        },
    }
}

/// Maps `key` to `value` in `entries`: the value of a key that is there is
/// replaced where it stands, a new key is added at the end.
pub fn put_entry(entries: &mut Vec<(Vec<u8>, BencodeValue)>, key: Vec<u8>, value: BencodeValue)
    requires
        distinct_keys(entries_view(old(entries)@)),
    ensures
        entries_view(final(entries)@) == with_entry(entries_view(old(entries)@), key@, value@),
        distinct_keys(entries_view(final(entries)@)),
{
    let ghost before = entries_view(entries@);
    let mut i: usize = 0;
    while i < entries.len()
        invariant
            i <= entries@.len(),
            entries@ == old(entries)@,
            before == entries_view(entries@),
            distinct_keys(before),
            forall|k: int| 0 <= k < i ==> (#[trigger] before[k]).0 != key@,
        decreases entries@.len() - i,
    {
        if same_bytes(entries[i].0.as_slice(), key.as_slice()) {
            proof {
                lemma_key_position(before, key@, i as int);
                lemma_with_entry_distinct(before, key@, value@);
            }
            entries.set(i, (key, value));
            assert(entries_view(entries@) =~= with_entry(before, key@, value@));
            return ;
        }
        i = i + 1;
    }
    proof {
        assert(!has_key(before, key@));
        lemma_with_entry_distinct(before, key@, value@);
    }
    entries.push((key, value));
    assert(entries_view(entries@) =~= with_entry(before, key@, value@));
}

/// Decodes the value that starts at `at` and says where it ends.
pub fn decode_value(input: &[u8], at: usize) -> (outcome: Result<(BencodeValue, usize), Error>)
    ensures
        match parse_value(input@, at as int) {
            Ok((value, next)) => outcome matches Ok((v, n)) && v@ == value && n == next && at < n
                <= input.len() && value.wf(),
            Err(e) => outcome matches Err(f) && f == e,
        },
    decreases input.len() - at,
{
    if at >= input.len() {
        return Err(Error::MalformedEncoding);
    }
    let lead: u8 = input[at];
    if lead >= 48 && lead <= 57 {
        match decode_bytes(input, at) {
            Ok((bytes, next)) => Ok((BencodeValue::Bytes(bytes), next)),
            Err(e) => Err(e),
        }
    } else if lead == INT_START {
        match decode_integer(input, at) {
            Ok((number, next)) => Ok((BencodeValue::Integer(number), next)),
            Err(e) => Err(e),
        }
    } else if lead == LIST_START {
        let mut items: Vec<BencodeValue> = Vec::new();
        let mut pos: usize = at + 1;
        assert(items_view(items@) =~= Seq::<Bencode>::empty());
        loop
            invariant
                at < pos <= input.len(),
                input@[at as int] == LIST_START,
                parse_items(input@, at + 1, Seq::empty()) == parse_items(
                    input@,
                    pos as int,
                    items_view(items@),
                ),
                forall|k: int| 0 <= k < items@.len() ==> (#[trigger] items@[k])@.wf(),
            decreases input.len() - pos,
        {
            if pos >= input.len() {
                return Err(Error::MalformedEncoding);
            }
            if input[pos] == END {
                proof {
                    lemma_list_view(items);
                }
                return Ok((BencodeValue::List(items), pos + 1));
            }
            match decode_value(input, pos) {
                Err(e) => {
                    return Err(e);
                },
                Ok((item, next)) => {
                    let ghost before = items_view(items@);
                    items.push(item);
                    assert(items_view(items@) =~= before.push(item@));
                    pos = next;
                },
            }
        }
    } else if lead == DICT_START {
        let mut entries: Vec<(Vec<u8>, BencodeValue)> = Vec::new();
        let mut pos: usize = at + 1;
        assert(entries_view(entries@) =~= Seq::<(Seq<u8>, Bencode)>::empty());
        loop
            invariant
                at < pos <= input.len(),
                input@[at as int] == DICT_START,
                parse_entries(input@, at + 1, Seq::empty()) == parse_entries(
                    input@,
                    pos as int,
                    entries_view(entries@),
                ),
                distinct_keys(entries_view(entries@)),
                forall|k: int| 0 <= k < entries@.len() ==> (#[trigger] entries@[k]).1@.wf(),
            decreases input.len() - pos,
        {
            if pos >= input.len() {
                return Err(Error::MalformedEncoding);
            }
            if input[pos] == END {
                proof {
                    lemma_dictionary_view(entries);
                }
                return Ok((BencodeValue::Dictionary(entries), pos + 1));
            }
            let (key, middle): (Vec<u8>, usize) = match decode_value(input, pos) {
                Err(e) => {
                    return Err(e);
                },
                Ok((BencodeValue::Bytes(key), middle)) => (key, middle),
                Ok(_) => {
                    return Err(Error::NonStringKey);
                },
            };
            match decode_value(input, middle) {
                Err(e) => {
                    return Err(e);
                },
                Ok((value, next)) => {
                    let ghost before = entries@;
                    put_entry(&mut entries, key, value);
                    proof {
                        lemma_put_keeps_wf(before, entries@, key@, value@);
                    }
                    pos = next;
                },
            }
        }
    } else {
        Err(Error::MalformedEncoding)
    }
}

/// Decodes the value at the start of `input` and gives it with what is left
/// of the input behind it.
pub fn decode_bencoded_value<'a>(input: &'a [u8]) -> (outcome: Result<
    (BencodeValue, &'a [u8]),
    Error,
>)
    ensures
        match decoded(input@) {
            Ok((value, next)) => outcome matches Ok((v, rest)) && v@ == value && rest@
                == input@.subrange(next, input@.len() as int) && value.wf(),
            Err(e) => outcome matches Err(f) && f == e,
        },
{
    match decode_value(input, 0) {
        Ok((value, next)) => Ok((value, slice_subrange(input, next, input.len()))),
        Err(e) => Err(e),
    }
}

/// Decodes the value at the start of `input`. What follows the value is not
/// looked at.
pub fn decode(input: &[u8]) -> (outcome: Result<BencodeValue, Error>)
    ensures
        match decoded(input@) {
            Ok((value, _)) => outcome matches Ok(v) && v@ == value && value.wf(),
            Err(e) => outcome matches Err(f) && f == e,
        },
{
    match decode_value(input, 0) {
        Ok((value, _)) => Ok(value),
        Err(e) => Err(e),
    }
}

/// Entries whose values were well formed stay so when a well-formed value
/// is put among them.
proof fn lemma_put_keeps_wf(
    before: Seq<(Vec<u8>, BencodeValue)>,
    after: Seq<(Vec<u8>, BencodeValue)>,
    key: Seq<u8>,
    value: Bencode,
)
    requires
        forall|k: int| 0 <= k < before.len() ==> (#[trigger] before[k]).1@.wf(),
        value.wf(),
        entries_view(after) == with_entry(entries_view(before), key, value),
    ensures
        forall|k: int| 0 <= k < after.len() ==> (#[trigger] after[k]).1@.wf(),
{
    let shown = entries_view(after);
    let old_shown = entries_view(before);
    assert(shown.len() == after.len());
    assert forall|k: int| 0 <= k < after.len() implies (#[trigger] after[k]).1@.wf() by {
        assert(shown[k].1 == after[k].1@);
        match key_position(old_shown, key) {
            Some(p) => {
                if k != p {
                    assert(shown[k] == old_shown[k]);
                    assert(old_shown[k].1 == before[k].1@);
                }
            },
            None => {
                if k < before.len() {
                    assert(shown[k] == old_shown[k]);
                    assert(old_shown[k].1 == before[k].1@);
                }
            },
        }
    }
}

} // verus!

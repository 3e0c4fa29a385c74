//! What bencoded bytes mean: the grammar, as functions from bytes to values.
//!
//! Each function reads `input` from position `at` and gives what it found and
//! the position behind it, or the error at which reading stopped.

use crate::bencode::value::distinct_keys;
use crate::bencode::value::has_key;
use crate::bencode::value::Bencode;
use crate::decimal::digits_value;
use crate::decimal::is_digit;
use crate::error::Error;
use vstd::prelude::*;

verus! {

/// `:`, which ends the length of a byte string.
pub const COLON: u8 = 58;

/// `-`, the sign of a negative integer.
pub const MINUS: u8 = 45;

/// `d`, which opens a dictionary.
pub const DICT_START: u8 = 100;

/// `e`, which ends an integer, a list or a dictionary.
pub const END: u8 = 101;

/// `i`, which opens an integer.
pub const INT_START: u8 = 105;

/// `l`, which opens a list.
pub const LIST_START: u8 = 108;

/// The position behind the digits that start at `at`.
pub open spec fn digits_end(input: Seq<u8>, at: int) -> int
    decreases input.len() - at,
{
    if 0 <= at < input.len() && is_digit(input[at]) {
        digits_end(input, at + 1)
    } else {
        at
    }
}

/// A run of digits spells ten times what it spells without its last digit,
/// and that digit more.
pub proof fn lemma_digits_value_step(input: Seq<u8>, from: int, to: int)
    requires
        0 <= from <= to < input.len(),
        is_digit(input[to]),
    ensures
        digits_value(input.subrange(from, to + 1)) == digits_value(input.subrange(from, to)) * 10
            + (input[to] - 48),
{
    let run = input.subrange(from, to + 1);
    assert(run.drop_last() =~= input.subrange(from, to));
    assert(run.last() == input[to]);
}

/// Behind a run of digits the digits end where they end from its start.
pub proof fn lemma_digits_end_step(input: Seq<u8>, from: int, to: int)
    requires
        0 <= from <= to <= input.len(),
        forall|k: int| from <= k < to ==> is_digit(input[k]),
    ensures
        digits_end(input, from) == digits_end(input, to),
    decreases to - from,
{
    if from < to {
        lemma_digits_end_step(input, from + 1, to);
    }
}

/// A byte string: its length in decimal, a colon, then that many bytes,
/// whatever they are.
pub open spec fn parse_bytes(input: Seq<u8>, at: int) -> Result<(Seq<u8>, int), Error> {
    let colon = digits_end(input, at);
    let length = digits_value(input.subrange(at, colon));
    if colon > at && colon < input.len() && input[colon] == COLON && colon + 1 + length
        <= input.len() {
        Ok((input.subrange(colon + 1, colon + 1 + length), colon + 1 + length))
    } else {
        Err(Error::MalformedEncoding)
    }
}

/// An integer: `i`, an optional `-`, at least one digit, `e`. Leading zeros
/// and `-0` are read as they stand; the number must fit in 64 bits.
pub open spec fn parse_integer(input: Seq<u8>, at: int) -> Result<(int, int), Error> {
    let negative = at + 1 < input.len() && input[at + 1] == MINUS;
    let start = if negative {
        at + 2
    } else {
        at + 1
    };
    let end = digits_end(input, start);
    let magnitude = digits_value(input.subrange(start, end));
    let number = if negative {
        -magnitude
    } else {
        magnitude as int
    };
    if 0 <= at < input.len() && input[at] == INT_START && end > start && end < input.len()
        && input[end] == END && i64::MIN <= number <= i64::MAX {
        Ok((number, end + 1))
    } else {
        Err(Error::MalformedEncoding)
    }
}

/// Where among `entries` the key `key` stands, if it does. Among distinct
/// keys there is one such place at most ([`lemma_key_position`]).
pub open spec fn key_position<V>(entries: Seq<(Seq<u8>, V)>, key: Seq<u8>) -> Option<int> {
    if has_key(entries, key) {
        Some(choose|i: int| 0 <= i < entries.len() && (#[trigger] entries[i]).0 == key)
    } else {
        None
    }
}

/// `entries` with `key` mapped to `value`: a key that is there already keeps
/// its place and takes the new value; a new key goes to the end.
pub open spec fn with_entry(entries: Seq<(Seq<u8>, Bencode)>, key: Seq<u8>, value: Bencode) -> Seq<
    (Seq<u8>, Bencode),
> {
    match key_position(entries, key) {
        Some(i) => entries.update(i, (key, value)),
        None => entries.push((key, value)),
    }
}

/// Among entries with distinct keys, a key stands where it is found.
pub proof fn lemma_key_position<V>(entries: Seq<(Seq<u8>, V)>, key: Seq<u8>, i: int)
    requires
        distinct_keys(entries),
        0 <= i < entries.len(),
        entries[i].0 == key,
    ensures
        key_position(entries, key) == Some(i),
{
    let j = choose|j: int| 0 <= j < entries.len() && (#[trigger] entries[j]).0 == key;
    if j < i {
        assert(entries[j].0 != entries[i].0);
    } else if i < j {
        assert(entries[i].0 != entries[j].0);
    }
}

/// Mapping a key anew leaves the keys distinct.
pub proof fn lemma_with_entry_distinct(entries: Seq<(Seq<u8>, Bencode)>, key: Seq<u8>, value: Bencode)
    requires
        distinct_keys(entries),
    ensures
        distinct_keys(with_entry(entries, key, value)),
{
    let after = with_entry(entries, key, value);
    match key_position(entries, key) {
        Some(p) => {
            assert forall|i: int, j: int| 0 <= i < j < after.len() implies (#[trigger] after[i]).0
                != (#[trigger] after[j]).0 by {
                assert(entries[i].0 != entries[j].0);
            }
        },
        None => {
            assert forall|i: int, j: int| 0 <= i < j < after.len() implies (#[trigger] after[i]).0
                != (#[trigger] after[j]).0 by {
                if j < entries.len() {
                    assert(entries[i].0 != entries[j].0);
                } else {
                    assert(entries[i].0 != key);
                }
            }
        },
    }
}

/// One value: a byte string where a digit leads, an integer after `i`, a
/// list after `l`, a dictionary after `d`. Anything else, and the end of the
/// input, is malformed.
pub open spec fn parse_value(input: Seq<u8>, at: int) -> Result<(Bencode, int), Error>
    decreases input.len() - at, 1int,
{
    if !(0 <= at < input.len()) {
        Err(Error::MalformedEncoding)
    } else if is_digit(input[at]) {
        match parse_bytes(input, at) {
            Ok((bytes, next)) => Ok((Bencode::Bytes(bytes), next)),
            Err(e) => Err(e),
        }
    } else if input[at] == INT_START {
        match parse_integer(input, at) {
            Ok((number, next)) => Ok((Bencode::Integer(number), next)),
            Err(e) => Err(e),
        }
    } else if input[at] == LIST_START {
        match parse_items(input, at + 1, Seq::empty()) {
            Ok((items, next)) => Ok((Bencode::List(items), next)),
            Err(e) => Err(e),
        }
    } else if input[at] == DICT_START {
        match parse_entries(input, at + 1, Seq::empty()) {
            Ok((entries, next)) => Ok((Bencode::Dictionary(entries), next)),
            Err(e) => Err(e),
        }
    } else {
        Err(Error::MalformedEncoding)
    }
}

/// The rest of a list, behind the items `seen`: values up to the closing
/// `e`. The input must not end before it.
///
/// A value always ends behind where it starts ([`lemma_parsed_wf`]), so the
/// test on the positions never fails; it is there to bound the reading.
pub open spec fn parse_items(input: Seq<u8>, at: int, seen: Seq<Bencode>) -> Result<
    (Seq<Bencode>, int),
    Error,
>
    decreases input.len() - at, 2int,
{
    if !(0 <= at < input.len()) {
        Err(Error::MalformedEncoding)
    } else if input[at] == END {
        Ok((seen, at + 1))
    } else {
        match parse_value(input, at) {
            Err(e) => Err(e),
            Ok((item, next)) => if at < next <= input.len() {
                parse_items(input, next, seen.push(item))
            } else {
                Err(Error::MalformedEncoding)
            },
        }
    }
}

/// The rest of a dictionary, behind the entries `seen`: keys and values in
/// turn up to the closing `e`. A key must be a byte string. A key that was
/// seen before takes the later value.
///
/// As in a list, the tests on the positions never fail.
pub open spec fn parse_entries(input: Seq<u8>, at: int, seen: Seq<(Seq<u8>, Bencode)>) -> Result<
    (Seq<(Seq<u8>, Bencode)>, int),
    Error,
>
    decreases input.len() - at, 2int,
{
    if !(0 <= at < input.len()) {
        Err(Error::MalformedEncoding)
    } else if input[at] == END {
        Ok((seen, at + 1))
    } else {
        match parse_value(input, at) {
            Err(e) => Err(e),
            Ok((Bencode::Bytes(key), middle)) => if at < middle <= input.len() {
                match parse_value(input, middle) {
                    Err(e) => Err(e),
                    Ok((value, next)) => if middle < next <= input.len() {
                        parse_entries(input, next, with_entry(seen, key, value))
                    } else {
                        Err(Error::MalformedEncoding)
                    },
                }
            } else {
                Err(Error::MalformedEncoding)
            },
            Ok(_) => Err(Error::NonStringKey),
        }
    }
}

/// Whatever is read is well formed, and reading moves forward.
pub proof fn lemma_parsed_wf(input: Seq<u8>, at: int)
    ensures
        parse_value(input, at) matches Ok((value, next)) ==> value.wf() && at < next
            <= input.len(),
    decreases input.len() - at, 1nat,
{
    if 0 <= at < input.len() {
        if is_digit(input[at]) {
        } else if input[at] == INT_START {
        } else if input[at] == LIST_START {
            lemma_parsed_items_wf(input, at + 1, Seq::empty());
        } else if input[at] == DICT_START {
            lemma_parsed_entries_wf(input, at + 1, Seq::empty());
        }
    }
}

/// The items that are read behind well-formed ones are well formed.
pub proof fn lemma_parsed_items_wf(input: Seq<u8>, at: int, seen: Seq<Bencode>)
    requires
        forall|i: int| 0 <= i < seen.len() ==> (#[trigger] seen[i]).wf(),
    ensures
        parse_items(input, at, seen) matches Ok((items, next)) ==> at < next <= input.len() && (
        forall|i: int| 0 <= i < items.len() ==> (#[trigger] items[i]).wf()),
    decreases input.len() - at, 2nat,
{
    if 0 <= at < input.len() && input[at] != END {
        lemma_parsed_wf(input, at);
        match parse_value(input, at) {
            Ok((item, next)) => {
                if at < next <= input.len() {
                    let longer = seen.push(item);
                    assert forall|i: int| 0 <= i < longer.len() implies (#[trigger] longer[i]).wf() by {
                        if i < seen.len() {
                            assert(longer[i] == seen[i]);
                        }
                    }
                    lemma_parsed_items_wf(input, next, longer);
                }
            },
            Err(_) => {},
        }
    }
}

/// The entries that are read behind a well-formed mapping make a
/// well-formed mapping.
pub proof fn lemma_parsed_entries_wf(input: Seq<u8>, at: int, seen: Seq<(Seq<u8>, Bencode)>)
    requires
        distinct_keys(seen),
        forall|i: int| 0 <= i < seen.len() ==> (#[trigger] seen[i]).1.wf(),
    ensures
        parse_entries(input, at, seen) matches Ok((entries, next)) ==> at < next <= input.len()
            && distinct_keys(entries) && (forall|i: int|
            0 <= i < entries.len() ==> (#[trigger] entries[i]).1.wf()),
    decreases input.len() - at, 2nat,
{
    if 0 <= at < input.len() && input[at] != END {
        lemma_parsed_wf(input, at);
        match parse_value(input, at) {
            Ok((Bencode::Bytes(key), middle)) => {
                if at < middle <= input.len() {
                    lemma_parsed_wf(input, middle);
                    match parse_value(input, middle) {
                        Ok((value, next)) => {
                            if middle < next <= input.len() {
                                let longer = with_entry(seen, key, value);
                                lemma_with_entry_distinct(seen, key, value);
                                assert forall|i: int| 0 <= i < longer.len() implies (
                                #[trigger] longer[i]).1.wf() by {
                                    match key_position(seen, key) {
                                        Some(p) => {
                                            if i != p {
                                                assert(longer[i] == seen[i]);
                                            }
                                        },
                                        None => {
                                            if i < seen.len() {
                                                assert(longer[i] == seen[i]);
                                            }
                                        },
                                    }
                                }
                                lemma_parsed_entries_wf(input, next, longer);
                            }
                        },
                        Err(_) => {},
                    }
                }
            },
            _ => {},
        }
    }
}

/// What `input` decodes to: the value at its start, and how many bytes the
/// value took.
pub open spec fn decoded(input: Seq<u8>) -> Result<(Bencode, int), Error> {
    parse_value(input, 0)
}

} // verus!

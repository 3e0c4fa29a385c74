use bittorrent_core::bencode::decode::{decode, decode_bencoded_value, put_entry};
use bittorrent_core::bencode::dictionary::find;
use bittorrent_core::bencode::encode::{encode, encode_into};
use bittorrent_core::bencode::order::{key_le, sorted_order};
use bittorrent_core::bencode::value::BencodeValue;
use bittorrent_core::error::Error;
use std::collections::HashMap;

fn bytes(text: &str) -> BencodeValue {
    BencodeValue::Bytes(text.as_bytes().to_vec())
}

fn entry(key: &str, value: BencodeValue) -> (Vec<u8>, BencodeValue) {
    (key.as_bytes().to_vec(), value)
}

#[test]
fn decodes_a_byte_string() {
    assert_eq!(decode(b"5:hello"), Ok(bytes("hello")));
}

#[test]
fn decodes_integers() {
    assert_eq!(decode(b"i42e"), Ok(BencodeValue::Integer(42)));
    assert_eq!(decode(b"i-42e"), Ok(BencodeValue::Integer(-42)));
}

#[test]
fn decodes_a_list() {
    assert_eq!(
        decode(b"l5:helloi42ee"),
        Ok(BencodeValue::List(vec![bytes("hello"), BencodeValue::Integer(42)]))
    );
}

#[test]
fn decodes_a_dictionary() {
    assert_eq!(
        decode(b"d3:cow3:moo4:spam4:eggse"),
        Ok(BencodeValue::Dictionary(vec![
            entry("cow", bytes("moo")),
            entry("spam", bytes("eggs")),
        ]))
    );
}

#[test]
fn decode_gives_the_rest_of_the_input() {
    let (value, rest) = decode_bencoded_value(b"i7e4:spam").unwrap();
    assert_eq!(value, BencodeValue::Integer(7));
    assert_eq!(rest, b"4:spam");
    let (value, rest) = decode_bencoded_value(rest).unwrap();
    assert_eq!(value, bytes("spam"));
    assert_eq!(rest, b"");
}

#[test]
fn byte_strings_are_binary() {
    assert_eq!(
        decode(&[b'3', b':', 0xff, 0x00, 0x80]),
        Ok(BencodeValue::Bytes(vec![0xff, 0x00, 0x80]))
    );
    assert_eq!(decode(b"0:"), Ok(BencodeValue::Bytes(vec![])));
}

#[test]
fn leading_zeros_and_negative_zero_are_read() {
    assert_eq!(decode(b"i00e"), Ok(BencodeValue::Integer(0)));
    assert_eq!(decode(b"i-0e"), Ok(BencodeValue::Integer(0)));
    assert_eq!(decode(b"i007e"), Ok(BencodeValue::Integer(7)));
    assert_eq!(decode(b"05:hello"), Ok(bytes("hello")));
}

#[test]
fn integers_reach_both_ends_of_64_bits() {
    assert_eq!(decode(b"i9223372036854775807e"), Ok(BencodeValue::Integer(i64::MAX)));
    assert_eq!(decode(b"i-9223372036854775808e"), Ok(BencodeValue::Integer(i64::MIN)));
    assert_eq!(decode(b"i9223372036854775808e"), Err(Error::MalformedEncoding));
    assert_eq!(decode(b"i-9223372036854775809e"), Err(Error::MalformedEncoding));
    assert_eq!(decode(b"i99999999999999999999999999e"), Err(Error::MalformedEncoding));
}

#[test]
fn malformed_input_is_refused() {
    for input in [
        &b""[..],
        b"x",
        b"e",
        b"5:hell",
        b"5hello",
        b"5",
        b":",
        b"ie",
        b"i-e",
        b"i42",
        b"i4x2e",
        b"i+5e",
        b"l",
        b"li1e",
        b"d",
        b"d3:cow",
        b"d3:cow3:moo",
        b"99999999999999999999999999:x",
        b"18446744073709551615:x",
    ] {
        assert_eq!(decode(input), Err(Error::MalformedEncoding), "{:?}", input);
    }
}

#[test]
fn a_key_must_be_a_byte_string() {
    assert_eq!(decode(b"di1e3:mooe"), Err(Error::NonStringKey));
    assert_eq!(decode(b"dle3:mooe"), Err(Error::NonStringKey));
    assert_eq!(decode(b"dde3:mooe"), Err(Error::NonStringKey));
    assert_eq!(decode(b"d3:cowi1ei2e3:mooe"), Err(Error::NonStringKey));
    assert_eq!(decode(b"di1"), Err(Error::MalformedEncoding));
}

#[test]
fn a_repeated_key_keeps_its_place_and_takes_the_later_value() {
    assert_eq!(
        decode(b"d1:bi1e1:ai2e1:bi3ee"),
        Ok(BencodeValue::Dictionary(vec![
            entry("b", BencodeValue::Integer(3)),
            entry("a", BencodeValue::Integer(2)),
        ]))
    );
}

#[test]
fn put_entry_replaces_or_appends() {
    let mut entries = vec![entry("b", BencodeValue::Integer(1))];
    put_entry(&mut entries, b"a".to_vec(), BencodeValue::Integer(2));
    put_entry(&mut entries, b"b".to_vec(), BencodeValue::Integer(3));
    assert_eq!(
        entries,
        vec![entry("b", BencodeValue::Integer(3)), entry("a", BencodeValue::Integer(2))]
    );
}

#[test]
fn nested_values_decode() {
    assert_eq!(
        decode(b"d4:listl1:ai-1eld1:kleeee3:numi0ee"),
        Ok(BencodeValue::Dictionary(vec![
            entry(
                "list",
                BencodeValue::List(vec![
                    bytes("a"),
                    BencodeValue::Integer(-1),
                    BencodeValue::List(vec![BencodeValue::Dictionary(vec![entry(
                        "k",
                        BencodeValue::List(vec![])
                    )])]),
                ])
            ),
            entry("num", BencodeValue::Integer(0)),
        ]))
    );
}

#[test]
fn encodes_each_kind() {
    assert_eq!(encode(&bytes("hello")), b"5:hello");
    assert_eq!(encode(&bytes("")), b"0:");
    assert_eq!(encode(&BencodeValue::Integer(42)), b"i42e");
    assert_eq!(encode(&BencodeValue::Integer(-42)), b"i-42e");
    assert_eq!(encode(&BencodeValue::Integer(0)), b"i0e");
    assert_eq!(encode(&BencodeValue::Integer(i64::MAX)), b"i9223372036854775807e");
    assert_eq!(encode(&BencodeValue::Integer(i64::MIN)), b"i-9223372036854775808e");
    assert_eq!(encode(&BencodeValue::List(vec![])), b"le");
    assert_eq!(encode(&BencodeValue::Dictionary(vec![])), b"de");
    assert_eq!(
        encode(&BencodeValue::List(vec![bytes("hello"), BencodeValue::Integer(42)])),
        b"l5:helloi42ee"
    );
    let twelve = BencodeValue::Bytes(vec![b'x'; 12]);
    assert_eq!(encode(&twelve), b"12:xxxxxxxxxxxx");
}

#[test]
fn encode_sorts_the_keys() {
    let value = BencodeValue::Dictionary(vec![
        entry("spam", bytes("eggs")),
        entry("cow", bytes("moo")),
        entry("co", BencodeValue::Integer(1)),
        entry("", BencodeValue::Integer(0)),
        entry("cows", BencodeValue::List(vec![])),
    ]);
    assert_eq!(encode(&value), b"d0:i0e2:coi1e3:cow3:moo4:cowsle4:spam4:eggse");
}

#[test]
fn encode_sorts_nested_dictionaries() {
    let value = BencodeValue::List(vec![BencodeValue::Dictionary(vec![
        entry("z", BencodeValue::Dictionary(vec![
            entry("b", BencodeValue::Integer(2)),
            entry("a", BencodeValue::Integer(1)),
        ])),
        entry("y", BencodeValue::Integer(0)),
    ])]);
    assert_eq!(encode(&value), b"ld1:yi0e1:zd1:ai1e1:bi2eeee");
}

#[test]
fn encode_into_appends() {
    let mut out = b"abc".to_vec();
    encode_into(&BencodeValue::Integer(5), &mut out);
    assert_eq!(out, b"abci5e");
}

#[test]
fn keys_are_ordered_byte_by_byte() {
    assert!(key_le(b"", b""));
    assert!(key_le(b"", b"a"));
    assert!(!key_le(b"a", b""));
    assert!(key_le(b"a", b"a"));
    assert!(key_le(b"a", b"ab"));
    assert!(!key_le(b"ab", b"a"));
    assert!(key_le(b"ab", b"b"));
    assert!(key_le(b"piece length", b"pieces"));
    assert!(!key_le(b"pieces", b"piece length"));
    assert!(key_le(&[0x7f], &[0x80]));
    assert!(!key_le(&[0xff], &[0x00, 0xff]));
}

#[test]
fn sorted_order_names_the_entries_by_key() {
    let entries = vec![
        entry("c", BencodeValue::Integer(0)),
        entry("a", BencodeValue::Integer(1)),
        entry("b", BencodeValue::Integer(2)),
        entry("a", BencodeValue::Integer(3)),
    ];
    assert_eq!(sorted_order(&entries), vec![1, 3, 2, 0]);
    assert_eq!(sorted_order(&vec![]), Vec::<usize>::new());
}

#[test]
fn decoding_what_was_encoded_gives_the_value_back() {
    let value = BencodeValue::Dictionary(vec![
        entry("spam", BencodeValue::List(vec![bytes("a"), BencodeValue::Integer(-3)])),
        entry("cow", BencodeValue::Dictionary(vec![
            entry("y", BencodeValue::Bytes(vec![0, 255, 101])),
            entry("x", BencodeValue::Integer(i64::MIN)),
        ])),
    ]);
    let canonical = BencodeValue::Dictionary(vec![
        entry("cow", BencodeValue::Dictionary(vec![
            entry("x", BencodeValue::Integer(i64::MIN)),
            entry("y", BencodeValue::Bytes(vec![0, 255, 101])),
        ])),
        entry("spam", BencodeValue::List(vec![bytes("a"), BencodeValue::Integer(-3)])),
    ]);
    let written = encode(&value);
    let (read, rest) = decode_bencoded_value(&written).unwrap();
    assert_eq!(rest, b"");
    assert_eq!(read, canonical);
    assert_eq!(encode(&read), written);
}

#[test]
fn round_trip_of_decoded_input() {
    for input in [
        &b"5:hello"[..],
        b"i42e",
        b"i-42e",
        b"l5:helloi42ee",
        b"d3:cow3:moo4:spam4:eggse",
        b"le",
        b"de",
        b"d1:ad1:bd1:cleeee",
    ] {
        let value = decode(input).unwrap();
        assert_eq!(encode(&value), input);
        assert_eq!(decode(&encode(&value)), Ok(value));
    }
}

#[test]
fn find_looks_a_key_up() {
    let value = decode(b"d3:cow3:moo4:spam4:eggse").unwrap();
    assert_eq!(find(&value, b"cow"), Some(&bytes("moo")));
    assert_eq!(find(&value, b"spam"), Some(&bytes("eggs")));
    assert_eq!(find(&value, b"co"), None);
    assert_eq!(find(&BencodeValue::Integer(1), b"cow"), None);
}

fn outside(value: &BencodeValue) -> serde_bencode::value::Value {
    match value {
        BencodeValue::Bytes(b) => serde_bencode::value::Value::Bytes(b.clone()),
        BencodeValue::Integer(i) => serde_bencode::value::Value::Int(*i),
        BencodeValue::List(items) => {
            serde_bencode::value::Value::List(items.iter().map(outside).collect())
        }
        BencodeValue::Dictionary(entries) => {
            let mut map = HashMap::new();
            for (key, item) in entries {
                map.insert(key.clone(), outside(item));
            }
            serde_bencode::value::Value::Dict(map)
        }
    }
}

#[test]
fn encode_agrees_with_serde_bencode() {
    for input in [
        &b"5:hello"[..],
        b"i-42e",
        b"l5:helloi42ee",
        b"d4:spam4:eggs3:cow3:mooe",
        b"d1:zd1:bi2e1:ai1ee1:yli0el0:eee",
        b"d12:piece lengthi1e6:pieces0:4:name1:x6:lengthi3ee",
    ] {
        let value = decode(input).unwrap();
        assert_eq!(encode(&value), serde_bencode::to_bytes(&outside(&value)).unwrap());
    }
}

#[test]
fn decode_agrees_with_serde_bencode() {
    for input in [
        &b"5:hello"[..],
        b"i-42e",
        b"l5:helloi42ee",
        b"d4:spam4:eggs3:cow3:mooe",
        b"d1:zd1:bi2e1:ai1ee1:yli0el0:eee",
    ] {
        let theirs: serde_bencode::value::Value = serde_bencode::from_bytes(input).unwrap();
        assert_eq!(outside(&decode(input).unwrap()), theirs);
    }
}

#[test]
fn a_clone_is_the_same_value() {
    let value = decode(b"d1:zd1:bi2e1:ai1ee1:yli0el0:eee").unwrap();
    assert_eq!(value.clone(), value);
    assert_eq!(encode(&value.clone()), encode(&value));
}

#[test]
fn encoding_does_not_depend_on_the_order_of_entries() {
    let a = decode(b"d1:ai1e1:bd1:xi2e1:y0:ee").unwrap();
    let b = decode(b"d1:bd1:y0:1:xi2ee1:ai1ee").unwrap();
    assert_ne!(a, b);
    assert_eq!(encode(&a), encode(&b));
    assert_eq!(encode(&a), b"d1:ai1e1:bd1:xi2e1:y0:ee");
}

#[test]
fn a_value_with_a_key_twice_is_not_well_formed() {
    assert!(decode(b"d1:bi1e1:ai2e1:bi3ee").unwrap().well_formed());
    assert!(BencodeValue::Integer(1).well_formed());
    assert!(bytes("x").well_formed());
    assert!(BencodeValue::List(vec![]).well_formed());
    assert!(BencodeValue::Dictionary(vec![]).well_formed());
    let twice = BencodeValue::Dictionary(vec![
        entry("a", BencodeValue::Integer(1)),
        entry("b", BencodeValue::Integer(2)),
        entry("a", BencodeValue::Integer(3)),
    ]);
    assert!(!twice.well_formed());
    assert!(!BencodeValue::List(vec![BencodeValue::Integer(0), twice.clone()]).well_formed());
    assert!(!BencodeValue::Dictionary(vec![entry("k", twice)]).well_formed());
    assert!(BencodeValue::Dictionary(vec![
        entry("a", BencodeValue::Integer(1)),
        entry("ab", BencodeValue::Integer(2)),
        entry("", BencodeValue::Integer(3)),
    ])
    .well_formed());
}

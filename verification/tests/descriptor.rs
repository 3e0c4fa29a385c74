use bittorrent_core::bencode::decode::decode;
use bittorrent_core::bencode::value::BencodeValue;
use bittorrent_core::error::Error;
use bittorrent_core::types::descriptor::{File, Files, Info, Torrent};
use bittorrent_core::types::hashes::Hashes;

fn pieces(n: usize) -> Vec<u8> {
    (0..n).map(|i| i as u8).collect()
}

fn single_file_info() -> Vec<u8> {
    let mut info = b"d6:lengthi92063e4:name10:sample.txt12:piece lengthi32768e6:pieces60:".to_vec();
    info.extend_from_slice(&pieces(60));
    info.push(b'e');
    info
}

fn single_file_torrent() -> Vec<u8> {
    let mut bytes = b"d8:announce31:http://tracker.example/announce4:info".to_vec();
    bytes.extend_from_slice(&single_file_info());
    bytes.push(b'e');
    bytes
}

fn hash(i: u8) -> [u8; 20] {
    let mut h = [0u8; 20];
    for (k, b) in h.iter_mut().enumerate() {
        *b = i * 20 + k as u8;
    }
    h
}

fn sample_info() -> Info {
    Info {
        name: "sample.txt".to_string(),
        piece_length: 32768,
        pieces: Hashes(vec![hash(0), hash(1), hash(2)]),
        files: Files::Single { length: 92063 },
    }
}

#[test]
fn reads_a_single_file_descriptor() {
    let torrent = Torrent::from_bytes(&single_file_torrent()).unwrap();
    assert_eq!(
        torrent,
        Torrent { announce: "http://tracker.example/announce".to_string(), info: sample_info() }
    );
    assert_eq!(torrent.info.files.length(), 92063);
}

#[test]
fn reads_a_multi_file_descriptor() {
    let mut bytes = b"d8:announce9:http://t/4:infod5:filesld6:lengthi10e4:pathl1:a5:b.txteed6:lengthi20e4:pathl5:c.bineee4:name3:dir12:piece lengthi16384e6:pieces20:".to_vec();
    bytes.extend_from_slice(&pieces(20));
    bytes.extend_from_slice(b"ee");
    let torrent = Torrent::from_bytes(&bytes).unwrap();
    assert_eq!(torrent.announce, "http://t/");
    assert_eq!(torrent.info.name, "dir");
    assert_eq!(torrent.info.piece_length, 16384);
    assert_eq!(torrent.info.pieces, Hashes(vec![hash(0)]));
    assert_eq!(
        torrent.info.files,
        Files::Multiple {
            files: vec![
                File { length: 10, path: vec!["a".to_string(), "b.txt".to_string()] },
                File { length: 20, path: vec!["c.bin".to_string()] },
            ]
        }
    );
    assert_eq!(torrent.info.files.length(), 30);
    assert_eq!(torrent.info.files.checked_length(), Some(30));
}

#[test]
fn unknown_keys_and_trailing_bytes_are_passed_over() {
    let mut bytes = b"d8:announce9:http://t/7:comment2:hi4:infod6:lengthi5e4:name1:x12:piece lengthi4e6:pieces40:".to_vec();
    bytes.extend_from_slice(&pieces(40));
    bytes.extend_from_slice(b"7:privatei1eeetrailing");
    let torrent = Torrent::from_bytes(&bytes).unwrap();
    assert_eq!(torrent.info.name, "x");
    assert_eq!(torrent.info.files, Files::Single { length: 5 });
    assert_eq!(torrent.info.pieces.0.len(), 2);
}

#[test]
fn a_descriptor_must_decode() {
    assert_eq!(Torrent::from_bytes(b""), Err(Error::MalformedEncoding));
    assert_eq!(Torrent::from_bytes(b"d8:announce"), Err(Error::MalformedEncoding));
    assert_eq!(Torrent::from_bytes(b"di1e1:xe"), Err(Error::NonStringKey));
}

#[test]
fn a_descriptor_without_a_field_is_refused() {
    let digest = String::from_utf8(vec![b'a'; 20]).unwrap();
    let good = format!(
        "d8:announce1:u4:infod6:lengthi5e4:name1:x12:piece lengthi4e6:pieces20:{}ee",
        digest
    );
    assert!(Torrent::from_bytes(good.as_bytes()).is_ok());
    let broken = [
        "i1e".to_string(),
        "le".to_string(),
        "de".to_string(),
        format!("d4:infod6:lengthi5e4:name1:x12:piece lengthi4e6:pieces20:{}ee", digest),
        "d8:announce1:ue".to_string(),
        "d8:announce1:u4:infoi1ee".to_string(),
        format!("d8:announcei1e4:infod6:lengthi5e4:name1:x12:piece lengthi4e6:pieces20:{}ee", digest),
        format!("d8:announce1:u4:infod6:lengthi5e12:piece lengthi4e6:pieces20:{}ee", digest),
        format!("d8:announce1:u4:infod6:lengthi5e4:namei7e12:piece lengthi4e6:pieces20:{}ee", digest),
        format!("d8:announce1:u4:infod6:lengthi5e4:name1:x6:pieces20:{}ee", digest),
        format!("d8:announce1:u4:infod6:lengthi5e4:name1:x12:piece length1:46:pieces20:{}ee", digest),
        format!("d8:announce1:u4:infod6:lengthi5e4:name1:x12:piece lengthi0e6:pieces20:{}ee", digest),
        format!("d8:announce1:u4:infod6:lengthi5e4:name1:x12:piece lengthi-4e6:pieces20:{}ee", digest),
        "d8:announce1:u4:infod6:lengthi5e4:name1:x12:piece lengthi4eee".to_string(),
        "d8:announce1:u4:infod6:lengthi5e4:name1:x12:piece lengthi4e6:piecesi0eee".to_string(),
        format!("d8:announce1:u4:infod4:name1:x12:piece lengthi4e6:pieces20:{}ee", digest),
        format!("d8:announce1:u4:infod6:lengthi-5e4:name1:x12:piece lengthi4e6:pieces20:{}ee", digest),
        format!("d8:announce1:u4:infod5:filesi1e4:name1:x12:piece lengthi4e6:pieces20:{}ee", digest),
        format!("d8:announce1:u4:infod5:filesld6:lengthi1eee4:name1:x12:piece lengthi4e6:pieces20:{}ee", digest),
        format!("d8:announce1:u4:infod5:filesld4:pathleee4:name1:x12:piece lengthi4e6:pieces20:{}ee", digest),
        format!("d8:announce1:u4:infod5:filesld6:lengthi1e4:pathli1eeee4:name1:x12:piece lengthi4e6:pieces20:{}ee", digest),
    ];
    for bytes in broken.iter() {
        assert_eq!(Torrent::from_bytes(bytes.as_bytes()), Err(Error::MissingField), "{}", bytes);
    }
}

#[test]
fn text_must_be_utf8() {
    let mut bytes = b"d8:announce2:".to_vec();
    bytes.extend_from_slice(&[0xff, 0xfe]);
    bytes.extend_from_slice(b"4:infod6:lengthi5e4:name1:x12:piece lengthi4e6:pieces0:ee");
    assert_eq!(Torrent::from_bytes(&bytes), Err(Error::MissingField));
    let mut bytes = b"d8:announce1:u4:infod6:lengthi5e4:name5:".to_vec();
    bytes.extend_from_slice("\u{e9}\u{4e2d}".as_bytes());
    bytes.extend_from_slice(b"12:piece lengthi4e6:pieces0:ee");
    assert_eq!(Torrent::from_bytes(&bytes).unwrap().info.name, "\u{e9}\u{4e2d}");
}

#[test]
fn pieces_must_be_whole_digests() {
    for k in 1..20usize {
        let mut bytes = format!(
            "d8:announce1:u4:infod6:lengthi5e4:name1:x12:piece lengthi4e6:pieces{}:",
            20 + k
        )
        .into_bytes();
        bytes.extend_from_slice(&pieces(20 + k));
        bytes.extend_from_slice(b"ee");
        assert_eq!(Torrent::from_bytes(&bytes), Err(Error::MalformedEncoding));
    }
}

#[test]
fn a_length_wins_over_files() {
    let bytes = b"d5:filesle6:lengthi5e4:name1:x12:piece lengthi4e6:pieces0:e";
    let value = decode(bytes).unwrap();
    assert_eq!(Files::from_bencode(&value), Some(Files::Single { length: 5 }));
    assert_eq!(Info::from_bencode(&value).unwrap().files, Files::Single { length: 5 });
}

#[test]
fn file_from_bencode_reads_length_and_path() {
    let value = decode(b"d6:lengthi7e4:pathl1:a1:bee").unwrap();
    assert_eq!(
        File::from_bencode(&value),
        Some(File { length: 7, path: vec!["a".to_string(), "b".to_string()] })
    );
    assert_eq!(File::from_bencode(&BencodeValue::Integer(1)), None);
    assert_eq!(File::from_bencode(&decode(b"d6:lengthi7ee").unwrap()), None);
}

#[test]
fn hashes_split_every_twenty_bytes() {
    assert_eq!(Hashes::from_bytes(&[]), Ok(Hashes(vec![])));
    for n in 0..5usize {
        let blob = pieces(20 * n);
        let hashes = Hashes::from_bytes(&blob).unwrap();
        assert_eq!(hashes.0.len(), n);
        for (i, h) in hashes.0.iter().enumerate() {
            assert_eq!(&h[..], &blob[20 * i..20 * i + 20]);
        }
        assert_eq!(hashes.to_bytes(), blob);
        for k in 1..20usize {
            assert_eq!(Hashes::from_bytes(&pieces(20 * n + k)), Err(Error::MalformedEncoding));
        }
    }
}

#[test]
fn length_adds_the_files_up() {
    assert_eq!(Files::Single { length: 0 }.length(), 0);
    assert_eq!(Files::Multiple { files: vec![] }.length(), 0);
    let files = Files::Multiple {
        files: vec![
            File { length: 1, path: vec![] },
            File { length: 20, path: vec![] },
            File { length: 300, path: vec![] },
        ],
    };
    assert_eq!(files.length(), 321);
    assert_eq!(files.checked_length(), Some(321));
}

#[test]
fn checked_length_sees_an_overflow() {
    let files = Files::Multiple {
        files: vec![
            File { length: usize::MAX, path: vec![] },
            File { length: 1, path: vec![] },
        ],
    };
    assert_eq!(files.checked_length(), None);
    let files = Files::Multiple {
        files: vec![
            File { length: usize::MAX - 1, path: vec![] },
            File { length: 1, path: vec![] },
        ],
    };
    assert_eq!(files.checked_length(), Some(usize::MAX));
    assert_eq!(Files::Single { length: usize::MAX }.checked_length(), Some(usize::MAX));
}

#[test]
fn info_is_encoded_with_sorted_keys() {
    assert_eq!(sample_info().encode(), single_file_info());
    let multi = Info {
        name: "dir".to_string(),
        piece_length: 16384,
        pieces: Hashes(vec![hash(5)]),
        files: Files::Multiple {
            files: vec![
                File { length: 10, path: vec!["a".to_string(), "b.txt".to_string()] },
                File { length: 20, path: vec!["c.bin".to_string()] },
            ],
        },
    };
    let mut expected = b"d5:filesld6:lengthi10e4:pathl1:a5:b.txteed6:lengthi20e4:pathl5:c.bineee4:name3:dir12:piece lengthi16384e6:pieces20:".to_vec();
    expected.extend_from_slice(&hash(5));
    expected.push(b'e');
    assert_eq!(multi.encode(), expected);
    assert_eq!(
        hex::encode(multi.calculate_info_hash()),
        "3cb22ae11cab4c25ad1b831e252dc759c4273fa4"
    );
}

#[test]
fn file_encode_into_appends_its_dictionary() {
    let mut out = b"l".to_vec();
    File { length: 3, path: vec!["p".to_string()] }.encode_into(&mut out);
    assert_eq!(out, b"ld6:lengthi3e4:pathl1:pee");
}

#[test]
fn info_encoding_decodes_to_the_info() {
    let info = sample_info();
    let value = decode(&info.encode()).unwrap();
    assert_eq!(Info::from_bencode(&value), Ok(info));
}

#[test]
fn info_hash_is_the_sha1_of_the_encoding() {
    assert_eq!(
        sample_info().calculate_info_hash(),
        [245, 25, 195, 162, 65, 68, 168, 100, 158, 88, 239, 195, 227, 89, 181, 26, 56, 96, 84, 214]
    );
    assert_eq!(
        hex::encode(sample_info().calculate_info_hash()),
        "f519c3a24144a8649e58efc3e359b51a386054d6"
    );
}

#[test]
fn info_hash_is_the_same_every_time() {
    let torrent = Torrent::from_bytes(&single_file_torrent()).unwrap();
    assert_eq!(torrent.info.calculate_info_hash(), torrent.info.calculate_info_hash());
    assert_eq!(torrent.info.calculate_info_hash(), sample_info().calculate_info_hash());
}

#[test]
fn info_hash_does_not_depend_on_the_order_of_keys() {
    let mut shuffled = b"d4:infod6:pieces60:".to_vec();
    shuffled.extend_from_slice(&pieces(60));
    shuffled.extend_from_slice(
        b"4:name10:sample.txt6:lengthi92063e12:piece lengthi32768ee8:announce31:http://tracker.example/announcee",
    );
    let a = Torrent::from_bytes(&single_file_torrent()).unwrap();
    let b = Torrent::from_bytes(&shuffled).unwrap();
    assert_eq!(a, b);
    assert_eq!(a.info.calculate_info_hash(), b.info.calculate_info_hash());
}

#[test]
fn info_hash_does_not_depend_on_the_announce_address() {
    let a = Torrent::from_bytes(&single_file_torrent()).unwrap();
    let mut other = b"d8:announce9:http://o/4:info".to_vec();
    other.extend_from_slice(&single_file_info());
    other.push(b'e');
    let b = Torrent::from_bytes(&other).unwrap();
    assert_eq!(a.info.calculate_info_hash(), b.info.calculate_info_hash());
}

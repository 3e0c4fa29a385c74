use bittorrent_core::hash::to_hex;
use bittorrent_core::report::{info_lines, peer_id_line};
use bittorrent_core::types::descriptor::{File, Files, Info, Torrent};
use bittorrent_core::types::hashes::Hashes;
use bittorrent_core::types::peers::PeerAddress;

#[test]
fn hex_is_lower_case_two_digits_a_byte() {
    assert_eq!(to_hex(&[]), "");
    assert_eq!(to_hex(&[0x00, 0x0f, 0x10, 0xab, 0xff]), "000f10abff");
    assert_eq!(to_hex(b"Hello world!"), "48656c6c6f20776f726c6421");
}

#[test]
fn a_peer_is_written_with_dots_and_a_colon() {
    assert_eq!(PeerAddress { ip: [192, 168, 1, 5], port: 6881 }.to_text(), "192.168.1.5:6881");
    assert_eq!(PeerAddress { ip: [0, 0, 0, 0], port: 0 }.to_text(), "0.0.0.0:0");
    assert_eq!(
        PeerAddress { ip: [255, 255, 255, 255], port: 65535 }.to_text(),
        "255.255.255.255:65535"
    );
}

#[test]
fn the_peer_id_line() {
    assert_eq!(peer_id_line(&[0x2d, 0x58, 0xff]), "Peer ID: 2d58ff");
}

#[test]
fn a_descriptor_in_lines() {
    let mut first = [0u8; 20];
    let mut second = [0xffu8; 20];
    first[19] = 0x1a;
    second[0] = 0x0b;
    let torrent = Torrent {
        announce: "http://tracker.example/announce".to_string(),
        info: Info {
            name: "sample.txt".to_string(),
            piece_length: 32768,
            pieces: Hashes(vec![first, second]),
            files: Files::Single { length: 92063 },
        },
    };
    let hash = to_hex(&torrent.info.calculate_info_hash());
    assert_eq!(
        info_lines(&torrent),
        vec![
            "Tracker URL: http://tracker.example/announce".to_string(),
            "Length: 92063".to_string(),
            format!("Info Hash: {}", hash),
            "Piece Length: 32768".to_string(),
            "Piece Hashes:".to_string(),
            "000000000000000000000000000000000000001a".to_string(),
            "0bffffffffffffffffffffffffffffffffffffff".to_string(),
        ]
    );
}

#[test]
fn the_last_piece_has_what_is_left() {
    let info = Info {
        name: "x".to_string(),
        piece_length: 32768,
        pieces: Hashes(vec![[0; 20], [1; 20], [2; 20]]),
        files: Files::Single { length: 92063 },
    };
    assert_eq!(info.piece_size(0), Some(32768));
    assert_eq!(info.piece_size(1), Some(32768));
    assert_eq!(info.piece_size(2), Some(26527));
    assert_eq!(info.piece_size(3), None);
    assert_eq!(info.piece_size(u32::MAX), None);
}

#[test]
fn a_piece_behind_the_content_has_no_size() {
    let info = Info {
        name: "x".to_string(),
        piece_length: 10,
        pieces: Hashes(vec![[0; 20]; 4]),
        files: Files::Multiple {
            files: vec![
                File { length: 12, path: vec![] },
                File { length: 8, path: vec![] },
            ],
        },
    };
    assert_eq!(info.piece_size(0), Some(10));
    assert_eq!(info.piece_size(1), Some(10));
    assert_eq!(info.piece_size(2), Some(0));
    assert_eq!(info.piece_size(3), None);
    let huge = Info {
        name: "x".to_string(),
        piece_length: usize::MAX,
        pieces: Hashes(vec![[0; 20]; 2]),
        files: Files::Single { length: usize::MAX },
    };
    assert_eq!(huge.piece_size(0), if usize::MAX as u128 > u32::MAX as u128 { None } else { Some(u32::MAX) });
    assert_eq!(huge.piece_size(1), Some(0));
    let overflowing = Info {
        name: "x".to_string(),
        piece_length: 1,
        pieces: Hashes(vec![[0; 20]; 2]),
        files: Files::Multiple {
            files: vec![
                File { length: usize::MAX, path: vec![] },
                File { length: 1, path: vec![] },
            ],
        },
    };
    assert_eq!(overflowing.piece_size(0), None);
}

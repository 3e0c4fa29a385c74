use bittorrent_core::decimal::push_decimal;
use bittorrent_core::error::Error;
use bittorrent_core::octets::{copy_range, same_bytes};
use bittorrent_core::protocol::tracker::{announce_request, get_peers_from_tracker, urlencode_u8_slice};
use bittorrent_core::types::peers::{PeerAddress, Peers};
use bittorrent_core::types::response::TrackerResponse;
use bittorrent_core::bencode::decode::decode;

#[test]
fn every_byte_is_percent_encoded() {
    assert_eq!(urlencode_u8_slice(&[]), "");
    assert_eq!(urlencode_u8_slice(&[0x00, 0x0a, 0x61, 0x9f, 0xff]), "%00%0A%61%9F%FF");
    assert_eq!(urlencode_u8_slice(b"a-Z"), "%61%2D%5A");
    let all: Vec<u8> = (0..=255).collect();
    let escaped = urlencode_u8_slice(&all);
    assert_eq!(escaped.len(), 768);
    for (i, chunk) in escaped.as_bytes().chunks(3).enumerate() {
        assert_eq!(std::str::from_utf8(chunk).unwrap(), format!("%{:02X}", i));
    }
}

#[test]
fn the_announce_request_appends_the_query() {
    let info_hash: [u8; 20] = [
        0xd6, 0x9f, 0x91, 0xe6, 0xb2, 0xae, 0x4c, 0x54, 0x24, 0x68, 0xd1, 0x07, 0x3a, 0x71, 0xd4,
        0xea, 0x13, 0x87, 0x9a, 0x7f,
    ];
    assert_eq!(
        announce_request("http://tracker.example/announce".to_string(), &info_hash, 92063),
        "http://tracker.example/announce?info_hash=%D6%9F%91%E6%B2%AE%4C%54%24%68%D1%07%3A%71%D4%EA%13%87%9A%7F&peer_id=00112233445566778899&port=6881&uploaded=0&downloaded=0&left=92063&compact=1"
    );
}

#[test]
fn an_address_with_a_query_gets_an_ampersand() {
    let url = announce_request("http://t/a?key=1".to_string(), &[0; 20], 0);
    assert!(url.starts_with("http://t/a?key=1&info_hash=%00%00"));
    assert!(url.ends_with("&downloaded=0&left=0&compact=1"));
    let url = announce_request("http://t/\u{e9}?".to_string(), &[0; 20], usize::MAX);
    assert!(url.starts_with("http://t/\u{e9}?&info_hash="));
    assert!(url.ends_with(&format!("&left={}&compact=1", usize::MAX)));
    let url = announce_request(String::new(), &[0; 20], 7);
    assert!(url.starts_with("?info_hash="));
}

#[test]
fn decimal_numerals() {
    for (n, text) in [
        (0u64, "0"),
        (7, "7"),
        (10, "10"),
        (6881, "6881"),
        (1000000, "1000000"),
        (u64::MAX, "18446744073709551615"),
    ] {
        let mut out = b"x".to_vec();
        push_decimal(&mut out, n);
        assert_eq!(out, format!("x{}", text).into_bytes());
    }
}

#[test]
fn byte_helpers() {
    assert!(same_bytes(b"", b""));
    assert!(same_bytes(b"abc", b"abc"));
    assert!(!same_bytes(b"abc", b"abd"));
    assert!(!same_bytes(b"abc", b"ab"));
    assert!(!same_bytes(b"", b"a"));
    assert_eq!(copy_range(b"hello", 1, 3), b"el");
    assert_eq!(copy_range(b"hello", 5, 5), b"");
    assert_eq!(copy_range(b"hello", 0, 5), b"hello");
}

#[test]
fn six_bytes_spell_a_peer() {
    assert_eq!(
        Peers::from_bytes(&[192, 168, 1, 5, 0x1a, 0xe1]),
        Ok(Peers(vec![PeerAddress { ip: [192, 168, 1, 5], port: 6881 }]))
    );
}

#[test]
fn a_peer_list_of_6m_bytes_holds_m_peers() {
    for m in 0..6usize {
        let blob: Vec<u8> = (0..6 * m).map(|i| (i * 7) as u8).collect();
        let peers = Peers::from_bytes(&blob).unwrap();
        assert_eq!(peers.0.len(), m);
        for (i, peer) in peers.0.iter().enumerate() {
            assert_eq!(&peer.ip[..], &blob[6 * i..6 * i + 4]);
            assert_eq!(peer.port, u16::from_be_bytes([blob[6 * i + 4], blob[6 * i + 5]]));
        }
        for k in 1..6usize {
            let blob: Vec<u8> = vec![0; 6 * m + k];
            assert_eq!(Peers::from_bytes(&blob), Err(Error::MalformedEncoding));
        }
    }
}

fn response(peers: &[u8]) -> Vec<u8> {
    let mut body = format!("d8:intervali1800e5:peers{}:", peers.len()).into_bytes();
    body.extend_from_slice(peers);
    body.push(b'e');
    body
}

#[test]
fn the_peers_of_a_tracker_response() {
    let body = response(&[192, 168, 1, 5, 0x1a, 0xe1, 10, 0, 0, 1, 0, 80]);
    assert_eq!(
        get_peers_from_tracker(&body),
        Ok(vec![
            PeerAddress { ip: [192, 168, 1, 5], port: 6881 },
            PeerAddress { ip: [10, 0, 0, 1], port: 80 },
        ])
    );
    let value = decode(&body).unwrap();
    let answer = TrackerResponse::from_bencode(&value).unwrap();
    assert_eq!(answer.interval, 1800);
    assert_eq!(answer.peers.0.len(), 2);
    assert_eq!(get_peers_from_tracker(&response(&[])), Ok(vec![]));
}

#[test]
fn a_bad_tracker_response_is_refused() {
    assert_eq!(get_peers_from_tracker(b""), Err(Error::MalformedEncoding));
    assert_eq!(get_peers_from_tracker(b"d8:interval"), Err(Error::MalformedEncoding));
    assert_eq!(get_peers_from_tracker(b"di1e0:e"), Err(Error::NonStringKey));
    assert_eq!(get_peers_from_tracker(&response(&[1, 2, 3, 4, 5])), Err(Error::MalformedEncoding));
    assert_eq!(
        get_peers_from_tracker(&response(&[1, 2, 3, 4, 5, 6, 7])),
        Err(Error::MalformedEncoding)
    );
    for body in [
        &b"d5:peers0:e"[..],
        b"d8:intervali1ee",
        b"d8:intervali-1e5:peers0:e",
        b"d8:interval1:15:peers0:e",
        b"d8:intervali1e5:peerslee",
        b"d14:failure reason4:nopee",
        b"i1e",
    ] {
        assert_eq!(get_peers_from_tracker(body), Err(Error::MalformedEncoding));
    }
}

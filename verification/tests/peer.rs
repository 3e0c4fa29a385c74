use bittorrent_core::error::{Error, Violation};
use bittorrent_core::protocol::bytes::{push_be_u32, read_be_u16, read_be_u32};
use bittorrent_core::protocol::piece::{
    build_request, download_piece, piece_requests, PieceBuffer, CHUNK_LEN,
};
use bittorrent_core::protocol::message::{
    expect_message, frame_length, read_framed_message, MessageKind, WireMessage,
};
use bittorrent_core::protocol::session::{ handshake_message, perform_handshake_with_peer, send_am_interested,
    wait_for_bitfield, wait_for_unchoke,
};

const HELLO_HASH: [u8; 20] =
    [42, 174, 108, 53, 201, 79, 207, 180, 21, 219, 233, 95, 64, 139, 156, 233, 30, 232, 70, 237];

fn content(n: usize) -> Vec<u8> {
    (0..n).map(|i| (i % 251) as u8).collect()
}

fn piece_frame(index: u32, begin: u32, block: &[u8]) -> Vec<u8> {
    let mut frame = vec![7u8];
    frame.extend_from_slice(&index.to_be_bytes());
    frame.extend_from_slice(&begin.to_be_bytes());
    frame.extend_from_slice(block);
    frame
}

fn violation(v: Violation) -> Result<(), Error> {
    Err(Error::ProtocolViolation(v))
}

#[test]
fn big_endian_numbers() {
    assert_eq!(read_be_u32(&[0x12, 0x34, 0x56, 0x78], 0), 0x12345678);
    assert_eq!(read_be_u32(&[9, 0xff, 0xff, 0xff, 0xff], 1), u32::MAX);
    assert_eq!(read_be_u16(&[0x1a, 0xe1], 0), 6881);
    assert_eq!(read_be_u16(&[0, 0xff, 0xff], 1), u16::MAX);
    let mut out = vec![1u8];
    push_be_u32(&mut out, 0x12345678);
    push_be_u32(&mut out, 16384);
    assert_eq!(out, [1, 0x12, 0x34, 0x56, 0x78, 0, 0, 0x40, 0]);
}

#[test]
fn the_handshake_has_68_bytes_in_order() {
    let info_hash: [u8; 20] = core::array::from_fn(|i| 200 + i as u8);
    let message = handshake_message(&info_hash);
    assert_eq!(message.len(), 68);
    assert_eq!(message[0], 19);
    assert_eq!(&message[1..20], b"BitTorrent protocol");
    assert_eq!(&message[20..28], &[0u8; 8]);
    assert_eq!(&message[28..48], &info_hash);
    assert_eq!(&message[48..68], b"01234567890123456789");
}

#[test]
fn a_handshake_with_our_info_hash_gives_the_peer_id() {
    let info_hash: [u8; 20] = core::array::from_fn(|i| i as u8);
    let mut reply = [0u8; 68];
    reply[0] = 19;
    reply[1..20].copy_from_slice(b"BitTorrent protocol");
    reply[28..48].copy_from_slice(&info_hash);
    reply[48..68].copy_from_slice(b"-XX0001-abcdefghijkl");
    assert_eq!(
        perform_handshake_with_peer(&info_hash, &reply),
        Ok(b"-XX0001-abcdefghijkl".to_vec())
    );
}

#[test]
fn a_handshake_with_another_info_hash_is_a_violation() {
    let info_hash: [u8; 20] = core::array::from_fn(|i| i as u8);
    for at in 28..48 {
        let mut reply = [0u8; 68];
        reply[28..48].copy_from_slice(&info_hash);
        reply[at] ^= 1;
        assert_eq!(
            perform_handshake_with_peer(&info_hash, &reply),
            Err(Error::ProtocolViolation(Violation::WrongInfoHash))
        );
    }
}

#[test]
fn a_length_prefix_of_zero_closes_the_connection() {
    assert_eq!(frame_length(&[0, 0, 0, 0]), Err(Error::ConnectionClosed));
    assert_eq!(frame_length(&[0, 0, 0, 1]), Ok(1));
    assert_eq!(frame_length(&[0, 0, 0x40, 9]), Ok(16393));
    assert_eq!(frame_length(&[0xff, 0xff, 0xff, 0xff]), Ok(u32::MAX));
}

#[test]
fn the_bitfield_has_one_bit_per_piece() {
    assert_eq!(wait_for_bitfield(&[5, 0b1110_0000], 3), Ok(vec![0b1110_0000]));
    assert_eq!(wait_for_bitfield(&[5, 0xff], 8), Ok(vec![0xff]));
    assert_eq!(wait_for_bitfield(&[5, 0xff, 0x80], 9), Ok(vec![0xff, 0x80]));
    assert_eq!(wait_for_bitfield(&[5], 0), Ok(vec![]));
    assert_eq!(
        wait_for_bitfield(&[5, 0xff], 9),
        Err(Error::ProtocolViolation(Violation::BitfieldLength { expected: 2, actual: 1 }))
    );
    assert_eq!(
        wait_for_bitfield(&[5, 0xff, 0], 8),
        Err(Error::ProtocolViolation(Violation::BitfieldLength { expected: 1, actual: 2 }))
    );
    assert_eq!(
        wait_for_bitfield(&[1], 0),
        Err(Error::ProtocolViolation(Violation::UnexpectedMessage { expected: 5, actual: 1 }))
    );
    assert_eq!(wait_for_bitfield(&[], 0), Err(Error::ConnectionClosed));
    assert_eq!(
        wait_for_bitfield(&[5], usize::MAX),
        Err(Error::ProtocolViolation(Violation::BitfieldLength {
            expected: usize::MAX / 8 + 1,
            actual: 0
        }))
    );
}

#[test]
fn interested_is_five_bytes() {
    assert_eq!(send_am_interested(), [0, 0, 0, 1, 2]);
}

#[test]
fn unchoke_is_awaited() {
    assert_eq!(wait_for_unchoke(&[1]), Ok(()));
    assert_eq!(
        wait_for_unchoke(&[0]),
        Err(Error::ProtocolViolation(Violation::UnexpectedMessage { expected: 1, actual: 0 }))
    );
    assert_eq!(
        wait_for_unchoke(&[5, 0xff]),
        Err(Error::ProtocolViolation(Violation::UnexpectedMessage { expected: 1, actual: 5 }))
    );
    assert_eq!(wait_for_unchoke(&[]), Err(Error::ConnectionClosed));
}

#[test]
fn a_request_has_17_bytes() {
    assert_eq!(
        build_request(3, 16384, 3616),
        [0, 0, 0, 13, 6, 0, 0, 0, 3, 0, 0, 0x40, 0, 0, 0, 0x0e, 0x20]
    );
}

#[test]
fn a_piece_of_two_blocks_is_asked_for_in_two_requests() {
    assert_eq!(CHUNK_LEN, 16384);
    assert_eq!(
        piece_requests(7, 32768),
        vec![build_request(7, 0, 16384), build_request(7, 16384, 16384)]
    );
}

#[test]
fn a_short_last_block_is_asked_for_last() {
    assert_eq!(
        piece_requests(0, 20000),
        vec![build_request(0, 0, 16384), build_request(0, 16384, 3616)]
    );
    assert_eq!(piece_requests(0, 0), Vec::<Vec<u8>>::new());
    assert_eq!(piece_requests(2, 1), vec![build_request(2, 0, 1)]);
    assert_eq!(piece_requests(2, 16384), vec![build_request(2, 0, 16384)]);
    assert_eq!(piece_requests(2, 16385).len(), 2);
    assert_eq!(piece_requests(1, 262144).len(), 16);
    assert_eq!(piece_requests(1, 262144)[15], build_request(1, 15 * 16384, 16384));
}

#[test]
fn blocks_are_taken_in_either_order() {
    let data = content(32768);
    let hash: [u8; 20] =
        [157, 190, 82, 96, 133, 138, 15, 150, 12, 6, 42, 168, 248, 211, 145, 79, 245, 189, 226, 80];
    let first = piece_frame(4, 0, &data[..16384]);
    let second = piece_frame(4, 16384, &data[16384..]);
    assert_eq!(
        download_piece(4, 32768, &hash, &vec![first.clone(), second.clone()]),
        Ok(data.clone())
    );
    assert_eq!(download_piece(4, 32768, &hash, &vec![second, first]), Ok(data));
}

#[test]
fn a_piece_with_a_short_last_block() {
    let data = content(20000);
    let hash: [u8; 20] =
        [127, 33, 208, 190, 192, 236, 65, 174, 164, 56, 84, 229, 187, 158, 151, 149, 29, 56, 49, 87];
    let frames = vec![piece_frame(0, 16384, &data[16384..]), piece_frame(0, 0, &data[..16384])];
    assert_eq!(download_piece(0, 20000, &hash, &frames), Ok(data));
}

#[test]
fn a_short_block_that_does_not_end_the_piece_is_refused() {
    let data = content(20000);
    let frames = vec![piece_frame(0, 0, &data[..3616])];
    assert_eq!(
        download_piece(0, 20000, &[0; 20], &frames),
        Err(Error::ProtocolViolation(Violation::ShortBlock { begin: 0, length: 3616 }))
    );
    let mut buffer = PieceBuffer::new(0, 20000);
    assert_eq!(
        buffer.accept(&piece_frame(0, 0, &data[..3616])),
        violation(Violation::ShortBlock { begin: 0, length: 3616 })
    );
}

#[test]
fn a_block_for_another_piece_leaves_the_buffer_alone() {
    let mut buffer = PieceBuffer::new(3, 11);
    assert_eq!(
        buffer.accept(&piece_frame(4, 0, b"hello world")),
        violation(Violation::WrongPieceIndex { expected: 3, actual: 4 })
    );
    assert!(!buffer.is_complete());
    assert_eq!(buffer.accept(&piece_frame(3, 0, b"hello world")), Ok(()));
    assert!(buffer.is_complete());
    assert_eq!(buffer.finish(&HELLO_HASH), Ok(b"hello world".to_vec()));

    let mut untouched = PieceBuffer::new(3, 11);
    assert_eq!(
        untouched.accept(&piece_frame(2, 0, b"hello world")),
        violation(Violation::WrongPieceIndex { expected: 3, actual: 2 })
    );
    assert_eq!(untouched.finish(&HELLO_HASH), Err(Error::IntegrityError));
}

#[test]
fn each_check_of_a_block_names_its_violation() {
    let mut buffer = PieceBuffer::new(1, 40000);
    let full = content(16384);
    assert_eq!(buffer.accept(&[]), Err(Error::ConnectionClosed));
    assert_eq!(
        buffer.accept(&[6, 0, 0, 0, 1, 0, 0, 0, 0, 0, 0, 0, 1]),
        violation(Violation::UnexpectedMessage { expected: 7, actual: 6 })
    );
    assert_eq!(buffer.accept(&[7]), violation(Violation::MessageLength { id: 7, length: 1 }));
    assert_eq!(
        buffer.accept(&[7, 0, 0, 0, 1, 0, 0, 0]),
        violation(Violation::MessageLength { id: 7, length: 8 })
    );
    assert_eq!(
        buffer.accept(&piece_frame(0, 0, &full)),
        violation(Violation::WrongPieceIndex { expected: 1, actual: 0 })
    );
    assert_eq!(
        buffer.accept(&piece_frame(1, 0, &content(16385))),
        violation(Violation::BlockTooLong { length: 16385 })
    );
    assert_eq!(
        buffer.accept(&piece_frame(1, 1, &full)),
        violation(Violation::MisalignedBlock { begin: 1 })
    );
    assert_eq!(
        buffer.accept(&piece_frame(1, 32768, &full)),
        violation(Violation::BlockOutOfBounds { begin: 32768, length: 16384, piece_length: 40000 })
    );
    assert_eq!(
        buffer.accept(&piece_frame(1, 0xffff_c000, &full)),
        violation(Violation::BlockOutOfBounds {
            begin: 0xffff_c000,
            length: 16384,
            piece_length: 40000
        })
    );
    assert_eq!(
        buffer.accept(&piece_frame(1, 16384, &full[..100])),
        violation(Violation::ShortBlock { begin: 16384, length: 100 })
    );
    assert_eq!(
        buffer.accept(&piece_frame(1, 32768, &[])),
        violation(Violation::ShortBlock { begin: 32768, length: 0 })
    );
    assert!(!buffer.is_complete());
    assert_eq!(buffer.accept(&piece_frame(1, 32768, &full[..7232])), Ok(()));
    assert_eq!(buffer.accept(&piece_frame(1, 16384, &full)), Ok(()));
    assert_eq!(buffer.accept(&piece_frame(1, 0, &full)), Ok(()));
    assert!(buffer.is_complete());
}

#[test]
fn a_wrong_hash_is_an_integrity_error() {
    let frames = vec![piece_frame(0, 0, b"hello world")];
    assert_eq!(download_piece(0, 11, &HELLO_HASH, &frames), Ok(b"hello world".to_vec()));
    let mut other = HELLO_HASH;
    other[19] ^= 1;
    assert_eq!(download_piece(0, 11, &other, &frames), Err(Error::IntegrityError));
    let frames = vec![piece_frame(0, 0, b"hello World")];
    assert_eq!(download_piece(0, 11, &HELLO_HASH, &frames), Err(Error::IntegrityError));
}

#[test]
fn an_empty_piece_needs_no_frame() {
    let empty: [u8; 20] =
        [218, 57, 163, 238, 94, 107, 75, 13, 50, 85, 191, 239, 149, 96, 24, 144, 175, 216, 7, 9];
    assert_eq!(download_piece(0, 0, &empty, &vec![]), Ok(vec![]));
    assert!(PieceBuffer::new(0, 0).is_complete());
}

#[test]
fn a_missing_frame_closes_the_download() {
    let data = content(32768);
    let frames = vec![piece_frame(0, 0, &data[..16384])];
    assert_eq!(download_piece(0, 32768, &[0; 20], &frames), Err(Error::ConnectionClosed));
    assert_eq!(download_piece(0, 32768, &[0; 20], &vec![]), Err(Error::ConnectionClosed));
}

#[test]
fn the_first_bad_frame_ends_the_download() {
    let data = content(32768);
    let frames = vec![vec![1u8], piece_frame(0, 0, &data[..16384])];
    assert_eq!(
        download_piece(0, 32768, &[0; 20], &frames),
        Err(Error::ProtocolViolation(Violation::UnexpectedMessage { expected: 7, actual: 1 }))
    );
}

#[test]
fn a_block_sent_twice_leaves_a_hole() {
    let data = content(32768);
    let hash: [u8; 20] =
        [157, 190, 82, 96, 133, 138, 15, 150, 12, 6, 42, 168, 248, 211, 145, 79, 245, 189, 226, 80];
    let first = piece_frame(0, 0, &data[..16384]);
    assert_eq!(
        download_piece(0, 32768, &hash, &vec![first.clone(), first]),
        Err(Error::IntegrityError)
    );
}

#[test]
fn frames_beyond_the_requests_are_not_looked_at() {
    let frames = vec![piece_frame(0, 0, b"hello world"), vec![9u8]];
    assert_eq!(download_piece(0, 11, &HELLO_HASH, &frames), Ok(b"hello world".to_vec()));
}

#[test]
fn a_message_of_the_awaited_kind_gives_its_body() {
    assert_eq!(expect_message(&[5, 1, 2, 3], 5), Ok(&[1u8, 2, 3][..]));
    assert_eq!(expect_message(&[1], 1), Ok(&[][..]));
    assert_eq!(
        expect_message(&[7, 0], 1),
        Err(Error::ProtocolViolation(Violation::UnexpectedMessage { expected: 1, actual: 7 }))
    );
    assert_eq!(expect_message(&[], 1), Err(Error::ConnectionClosed));
}

#[test]
fn each_kind_of_message_has_its_frame() {
    assert_eq!(WireMessage::Unchoke.to_frame(), [0, 0, 0, 1, 1]);
    assert_eq!(WireMessage::Interested.to_frame(), [0, 0, 0, 1, 2]);
    assert_eq!(WireMessage::Bitfield(vec![0xf0, 0x80]).to_frame(), [0, 0, 0, 3, 5, 0xf0, 0x80]);
    assert_eq!(
        (WireMessage::Request { index: 1, begin: 16384, length: 3616 }).to_frame(),
        [0, 0, 0, 13, 6, 0, 0, 0, 1, 0, 0, 0x40, 0, 0, 0, 0x0e, 0x20]
    );
    assert_eq!(
        (WireMessage::Piece { index: 2, begin: 0x12345678, block: vec![9, 8, 7] }).to_frame(),
        [0, 0, 0, 12, 7, 0, 0, 0, 2, 0x12, 0x34, 0x56, 0x78, 9, 8, 7]
    );
}

#[test]
fn a_frame_is_read_as_the_awaited_message() {
    let messages = vec![
        WireMessage::Unchoke,
        WireMessage::Interested,
        WireMessage::Bitfield(vec![]),
        WireMessage::Bitfield(vec![0xff, 0x01]),
        WireMessage::Request { index: u32::MAX, begin: 0, length: 16384 },
        WireMessage::Piece { index: 0, begin: 16384, block: vec![] },
        WireMessage::Piece { index: 7, begin: 0, block: vec![1, 2, 3, 4, 5] },
    ];
    for message in messages {
        let frame = message.to_frame();
        let length = frame_length(&[frame[0], frame[1], frame[2], frame[3]]).unwrap() as usize;
        assert_eq!(length, frame.len() - 4);
        assert_eq!(read_framed_message(&frame[4..], message.kind()), Ok(message.clone()));
        assert_eq!(message.kind().id(), frame[4]);
    }
}

#[test]
fn a_frame_of_another_kind_or_length_is_a_violation() {
    assert_eq!(read_framed_message(&[], MessageKind::Unchoke), Err(Error::ConnectionClosed));
    assert_eq!(
        read_framed_message(&[2], MessageKind::Unchoke),
        Err(Error::ProtocolViolation(Violation::UnexpectedMessage { expected: 1, actual: 2 }))
    );
    assert_eq!(
        read_framed_message(&[0], MessageKind::Piece),
        Err(Error::ProtocolViolation(Violation::UnexpectedMessage { expected: 7, actual: 0 }))
    );
    assert_eq!(
        read_framed_message(&[6, 0, 0, 0, 1, 0, 0, 0, 0, 0, 0, 0], MessageKind::Request),
        Err(Error::ProtocolViolation(Violation::MessageLength { id: 6, length: 12 }))
    );
    assert_eq!(
        read_framed_message(&[6, 0, 0, 0, 1, 0, 0, 0, 0, 0, 0, 0, 1, 0], MessageKind::Request),
        Err(Error::ProtocolViolation(Violation::MessageLength { id: 6, length: 14 }))
    );
    assert_eq!(
        read_framed_message(&[7, 0, 0, 0, 1, 0, 0, 0], MessageKind::Piece),
        Err(Error::ProtocolViolation(Violation::MessageLength { id: 7, length: 8 }))
    );
    assert_eq!(read_framed_message(&[1, 9, 9], MessageKind::Unchoke), Ok(WireMessage::Unchoke));
}

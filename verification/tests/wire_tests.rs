use torrent_core::bittorrent::{InfoHash, PeerId};
use torrent_core::wire::{
    build_handshake, check_handshake, decode_message, encode_message, HandshakeError, Message,
    PeerConnection,
};

#[test]
fn handshake_layout() {
    let ih = InfoHash::from_info_bytes(b"some info dict");
    let pid = PeerId::from_bytes(b"-LT0010-000000000001");
    let hs = build_handshake(&ih, &pid);
    assert_eq!(hs.len(), 68);
    assert_eq!(hs[0], 0x13);
    assert_eq!(&hs[1..20], b"BitTorrent protocol");
    assert_eq!(&hs[20..28], &[0u8; 8]);
    assert_eq!(&hs[28..48], ih.as_bytes());
    assert_eq!(&hs[48..68], pid.as_bytes());
}

#[test]
fn handshake_check_rejects_mismatches() {
    let ih = InfoHash::from_info_bytes(b"mine");
    let other = InfoHash::from_info_bytes(b"theirs");
    let pid = PeerId::from_bytes(b"-LT0010-000000000001");
    let good = build_handshake(&ih, &pid);
    assert!(check_handshake(&good, &ih).is_ok());
    assert!(matches!(
        check_handshake(&good[..67], &ih),
        Err(HandshakeError::WrongLength)
    ));
    let mut wrong_name = good.clone();
    wrong_name[1] = b'X';
    assert!(matches!(
        check_handshake(&wrong_name, &ih),
        Err(HandshakeError::WrongProtocol)
    ));
    assert!(matches!(
        check_handshake(&good, &other),
        Err(HandshakeError::InfoHashMismatch)
    ));
}

#[test]
fn message_frames_round_trip() {
    let cases = vec![
        Message::KeepAlive,
        Message::Choke,
        Message::Unchoke,
        Message::Interested,
        Message::NotInterested,
        Message::Have(0x01020304),
        Message::Bitfield(vec![0b1010_0000, 0xff]),
        Message::Request {
            index: 1,
            begin: 16384,
            length: 16384,
        },
        Message::Piece {
            index: 1,
            begin: 0,
            block: vec![9, 8, 7],
        },
        Message::Cancel {
            index: 1,
            begin: 16384,
            length: 16384,
        },
    ];
    for m in cases {
        let frame = encode_message(&m);
        // 4-byte big-endian length prefix, then the body
        let len = u32::from_be_bytes([frame[0], frame[1], frame[2], frame[3]]) as usize;
        assert_eq!(frame.len(), 4 + len);
        let decoded = decode_message(&frame[4..]).unwrap();
        assert_eq!(encode_message(&decoded), frame);
    }
}

#[test]
fn message_layouts_are_exact() {
    assert_eq!(encode_message(&Message::KeepAlive), vec![0, 0, 0, 0]);
    assert_eq!(encode_message(&Message::Unchoke), vec![0, 0, 0, 1, 1]);
    assert_eq!(
        encode_message(&Message::Have(6881)),
        vec![0, 0, 0, 5, 4, 0, 0, 0x1a, 0xe1]
    );
    assert_eq!(
        encode_message(&Message::Request {
            index: 2,
            begin: 16384,
            length: 16384
        }),
        vec![0, 0, 0, 13, 6, 0, 0, 0, 2, 0, 0, 0x40, 0, 0, 0, 0x40, 0]
    );
    // an unknown id is refused
    assert!(decode_message(&[9, 1, 2]).is_none());
}

#[test]
fn connection_flags_follow_messages() {
    let mut c = PeerConnection::new("1.2.3.4:6881".to_string());
    assert!(c.me_choked && !c.me_interested && c.they_choked && !c.they_interested);
    c.on_message(&Message::Unchoke);
    assert!(!c.me_choked);
    c.on_message(&Message::Interested);
    assert!(c.me_interested);
    c.on_message(&Message::Choke);
    assert!(c.me_choked);
    c.on_message(&Message::Have(3));
    assert!(c.me_choked && c.me_interested);
}

use torrent_core::wire::{connection_step, ConnectionEvent, ConnectionState};

#[test]
fn connection_lifecycle() {
    let s = ConnectionState::Connecting;
    let s = connection_step(s, ConnectionEvent::Connected);
    assert_eq!(s, ConnectionState::Handshaking);
    let s = connection_step(s, ConnectionEvent::HandshakeDone);
    assert_eq!(s, ConnectionState::Idle);
    let s = connection_step(s, ConnectionEvent::RequestSent);
    assert_eq!(s, ConnectionState::Requesting);
    let s = connection_step(s, ConnectionEvent::BlockReceived);
    assert_eq!(s, ConnectionState::Transferring);
    let s = connection_step(s, ConnectionEvent::TransferDone);
    assert_eq!(s, ConnectionState::Idle);
    // an out-of-turn event changes nothing
    assert_eq!(
        connection_step(s, ConnectionEvent::Connected),
        ConnectionState::Idle
    );
    // a socket error closes from any state, and closed is terminal
    let s = connection_step(s, ConnectionEvent::SocketError);
    assert_eq!(s, ConnectionState::Closed);
    assert_eq!(
        connection_step(s, ConnectionEvent::Connected),
        ConnectionState::Closed
    );
}

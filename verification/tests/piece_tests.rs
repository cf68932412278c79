use torrent_core::bittorrent::decode_announce_response;
use torrent_core::metainfo::{Info, MetaInfoFile};
use torrent_core::piece::{BlockDelivery, PieceManager, PieceState};
use torrent_core::wire::{build_handshake, check_handshake};
use torrent_core::bittorrent::PeerId;

const H0: [u8; 20] = [
    129, 254, 139, 254, 135, 87, 108, 62, 203, 34, 66, 111, 142, 87, 132, 115, 130, 145, 122, 207,
];

const H1: [u8; 20] = [
    248, 34, 5, 20, 113, 149, 123, 123, 190, 187, 138, 176, 136, 254, 155, 214, 209, 79, 66, 97,
];

// two pieces of length 4 over a 6-byte payload: "abcd" and "ef"
fn two_piece_manager() -> PieceManager {
    PieceManager::new(vec![H0.to_vec(), H1.to_vec()], 4, 6)
}

#[test]
fn finished_iff_all_pieces_verify() {
    let mut pm = two_piece_manager();
    let have = vec![true, true];
    assert!(!pm.finished());

    let (p0, b0) = pm.next_request(1, &have).unwrap();
    assert_eq!((p0, b0), (0, 0));
    match pm.deliver_block(1, p0, b0, b"abcd".to_vec()) {
        BlockDelivery::Complete(bytes) => assert_eq!(bytes, b"abcd".to_vec()),
        _ => panic!("expected the piece to complete"),
    }
    assert!(!pm.finished());
    assert!(matches!(pm.piece_state(0), PieceState::Complete));

    let (p1, b1) = pm.next_request(2, &have).unwrap();
    assert_eq!((p1, b1), (1, 0));
    match pm.deliver_block(2, p1, b1, b"ef".to_vec()) {
        BlockDelivery::Complete(bytes) => assert_eq!(bytes, b"ef".to_vec()),
        _ => panic!("expected the piece to complete"),
    }
    assert!(pm.finished());
    let progress = pm.progress();
    assert_eq!(progress.bytes_downloaded, 6);
    assert_eq!(progress.bytes_total, 6);
    assert_eq!(progress.pieces_fetched, vec![true, true]);
}

#[test]
fn corrupted_block_returns_to_missing_and_never_counts() {
    let mut pm = two_piece_manager();
    let have = vec![true, true];
    let (p, b) = pm.next_request(1, &have).unwrap();
    // deliberately corrupted payload: the digest cannot match
    match pm.deliver_block(1, p, b, b"abcX".to_vec()) {
        BlockDelivery::Corrupt => {}
        _ => panic!("expected a verification failure"),
    }
    assert!(matches!(pm.piece_state(0), PieceState::Missing));
    assert_eq!(pm.progress().bytes_downloaded, 0);
    assert!(!pm.finished());
    // the piece can be fetched again and still completes
    let (p2, b2) = pm.next_request(1, &have).unwrap();
    assert_eq!((p2, b2), (p, b));
    assert!(matches!(
        pm.deliver_block(1, p2, b2, b"abcd".to_vec()),
        BlockDelivery::Complete(_)
    ));
}

#[test]
fn at_most_one_peer_per_block() {
    let mut pm = two_piece_manager();
    let have = vec![true, true];
    // two simulated peers never get the same (piece, block)
    let r1 = pm.next_request(1, &have).unwrap();
    let r2 = pm.next_request(2, &have).unwrap();
    assert_ne!(r1, r2);
    // a delivery from a peer that does not hold the request is rejected
    assert!(matches!(
        pm.deliver_block(2, r1.0, r1.1, b"abcd".to_vec()),
        BlockDelivery::Rejected
    ));
    // after a disconnect the abandoned block can be reassigned
    pm.peer_disconnected(1);
    assert!(matches!(pm.piece_state(r1.0), PieceState::Missing));
    let r3 = pm.next_request(3, &have).unwrap();
    assert_eq!(r3, r1);
}

#[test]
fn respects_peer_bitfields() {
    let mut pm = two_piece_manager();
    // the peer only has the second piece
    let have = vec![false, true];
    let (p, b) = pm.next_request(9, &have).unwrap();
    assert_eq!((p, b), (1, 0));
    // a peer with nothing gets no request
    assert!(pm.next_request(9, &vec![false, false]).is_none());
}

const PIECE_HASH: [u8; 20] = [
    158, 81, 131, 3, 156, 214, 31, 200, 134, 82, 27, 120, 148, 98, 234, 31, 1, 45, 116, 118,
];

#[test]
fn end_to_end_single_piece_download() {
    // the torrent: one 16 KiB piece, one tracker URL
    let mut torrent: Vec<u8> = Vec::new();
    torrent.extend_from_slice(b"d8:announce23:http://tracker.test/ann4:info");
    torrent.extend_from_slice(b"d6:lengthi16384e4:name8:demo.bin12:piece lengthi16384e6:pieces20:");
    torrent.extend_from_slice(&PIECE_HASH);
    torrent.extend_from_slice(b"ee");
    let meta = MetaInfoFile::from_bencode(&torrent).unwrap();
    let (piece_length, total, pieces_hex) = match &meta.info {
        Info::SingleFileInfo {
            piece_length,
            length,
            pieces,
            ..
        } => (*piece_length, *length, pieces.clone()),
        _ => panic!("expected a single-file torrent"),
    };

    // the fake tracker answers with one compact peer
    let mut body: Vec<u8> = Vec::new();
    body.extend_from_slice(b"d8:completei1e10:incompletei0e8:intervali60e5:peers6:");
    body.extend_from_slice(&[127, 0, 0, 1, 0x1a, 0xe1]);
    body.extend_from_slice(b"e");
    let announce = decode_announce_response(&body).unwrap();
    assert_eq!(announce.peers.len(), 1);
    assert_eq!(announce.peers[0].hostname(), "127.0.0.1:6881");

    // the fake peer completes the handshake
    let my_id = PeerId::from_bytes(b"-LT0010-000000000001");
    let peer_id = PeerId::from_bytes(b"-FK0001-000000000002");
    let sent = build_handshake(&meta.info_hash, &my_id);
    assert_eq!(sent.len(), 68);
    let mut reply = sent.clone();
    reply[48..68].copy_from_slice(peer_id.as_bytes());
    let remote = check_handshake(&reply, &meta.info_hash).unwrap();
    assert_eq!(remote, peer_id);

    // and serves the single piece's bytes
    let payload: Vec<u8> = (0..16384u32).map(|i| ((i * 7 + 3) % 256) as u8).collect();
    let hashes: Vec<Vec<u8>> = pieces_hex.iter().map(|h| hex::decode(h).unwrap()).collect();
    let mut pm = PieceManager::new(hashes, piece_length, total);
    let have = vec![true];
    let (p, b) = pm.next_request(1, &have).unwrap();
    assert_eq!((p, b), (0, 0));
    let out = match pm.deliver_block(1, p, b, payload.clone()) {
        BlockDelivery::Complete(bytes) => bytes,
        _ => panic!("expected the download to complete"),
    };
    // the output byte-matches the original payload
    assert_eq!(out, payload);
    assert!(pm.finished());
    assert!(matches!(pm.piece_state(0), PieceState::Complete));
}

const H2: [u8; 20] = [
    99, 47, 59, 145, 217, 29, 69, 134, 255, 93, 125, 160, 212, 118, 44, 1, 251, 165, 27, 185,
];

#[test]
fn blocks_assemble_across_partial_deliveries() {
    // one piece of 20000 bytes: two blocks, delivered out of order by two peers
    let mut pm = PieceManager::new(vec![H2.to_vec()], 20000, 20000);
    let payload: Vec<u8> = (0..20000u32).map(|i| ((i * 13 + 5) % 256) as u8).collect();
    let have = vec![true];
    let (p0, b0) = pm.next_request(1, &have).unwrap();
    let (p1, b1) = pm.next_request(2, &have).unwrap();
    assert_eq!((p0, b0), (0, 0));
    assert_eq!((p1, b1), (0, 1));
    // the second block arrives first: recorded, the piece is not yet whole
    assert!(matches!(
        pm.deliver_block(2, 0, 1, payload[16384..].to_vec()),
        BlockDelivery::Stored
    ));
    assert!(matches!(pm.piece_state(0), PieceState::InFlight));
    assert!(!pm.finished());
    match pm.deliver_block(1, 0, 0, payload[..16384].to_vec()) {
        BlockDelivery::Complete(bytes) => assert_eq!(bytes, payload),
        _ => panic!("expected the piece to complete"),
    }
    assert!(pm.finished());
}

#[test]
fn generated_peer_id_has_signature_and_length() {
    let a = PeerId::new();
    let b = PeerId::new();
    assert_eq!(a.as_bytes().len(), 20);
    assert_eq!(&a.as_bytes()[..8], b"-LT0010-");
    assert_eq!(&b.as_bytes()[..8], b"-LT0010-");
}

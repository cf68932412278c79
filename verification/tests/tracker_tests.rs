use torrent_core::bittorrent::{
    decode_announce_response, decode_compact_peers, DownloadProgress, InfoHash, Peer, PeerId,
    PeerInfoResult, TorrentError,
};
use torrent_core::tracker::{announce_query, next_announce_delay};
use torrent_core::util::url_encode_byte_string;

#[test]
fn test_peer_from_slice() {
    let slice: [u8; 6] = [10, 0, 0, 1, 0x1a, 0xe1];

    assert_eq!(
        Peer {
            id: None,
            ip: "10.0.0.1".to_string(),
            port: 6881
        },
        Peer::from_slice(&slice)
    )
}

#[test]
fn compact_blob_yields_one_peer_per_six_bytes() {
    // 2 entries -> 2 peers, fields by the big-endian formulas
    let blob: [u8; 12] = [10, 0, 0, 1, 0x1a, 0xe1, 192, 168, 1, 42, 0, 80];
    let peers = decode_compact_peers(&blob).unwrap();
    assert_eq!(peers.len(), 2);
    assert_eq!(peers[0].ip, "10.0.0.1");
    assert_eq!(peers[0].port, 6881);
    assert_eq!(peers[1].ip, "192.168.1.42");
    assert_eq!(peers[1].port, 80);
    // empty blob -> no peers
    assert_eq!(decode_compact_peers(&[]).unwrap().len(), 0);
    // a length that is not a multiple of six is refused
    assert!(decode_compact_peers(&[1, 2, 3, 4]).is_none());
}

#[test]
fn failure_reason_always_wins() {
    // other valid keys are present, but the failure reason decides
    let body = b"d14:failure reason9:not found8:intervali60ee";
    match decode_announce_response(body) {
        Err(TorrentError::TrackerError(m)) => assert_eq!(m, "not found"),
        _ => panic!("expected a tracker failure"),
    }
}

#[test]
fn announce_success_with_compact_peers() {
    let mut body: Vec<u8> = Vec::new();
    body.extend_from_slice(b"d8:completei5e10:incompletei3e8:intervali1800e5:peers6:");
    body.extend_from_slice(&[10, 0, 0, 1, 0x1a, 0xe1]);
    body.extend_from_slice(b"e");
    let r = decode_announce_response(&body).unwrap();
    assert_eq!(r.interval, 1800);
    assert_eq!(r.complete, 5);
    assert_eq!(r.incomplete, 3);
    assert_eq!(r.peers.len(), 1);
    assert_eq!(r.peers[0].ip, "10.0.0.1");
    assert_eq!(r.peers[0].port, 6881);
    assert!(r.warning_message.is_none());
    assert!(r.min_interval.is_none());
}

#[test]
fn announce_success_with_dictionary_peers() {
    let body = b"d8:completei1e10:incompletei0e8:intervali60e5:peersld2:id2:me2:ip7:1.2.3.44:porti6881eeee";
    let r = PeerInfoResult::from_bytes(body.to_vec()).unwrap();
    assert_eq!(r.peers.len(), 1);
    assert_eq!(r.peers[0].ip, "1.2.3.4");
    assert_eq!(r.peers[0].port, 6881);
    assert_eq!(r.peers[0].id, Some(PeerId::from_bytes(b"me")));
}

#[test]
fn announce_rejects_unknown_keys() {
    let body = b"d5:bogusi1e8:completei1e10:incompletei0e8:intervali60e5:peersleee";
    assert!(PeerInfoResult::from_bytes(body.to_vec()).is_err());
}

#[test]
fn announce_query_reports_progress_and_events() {
    let ih = InfoHash::from_info_bytes(b"x");
    let pid = PeerId::from_bytes(b"AZ");
    let fresh = DownloadProgress {
        bytes_total: 100,
        bytes_downloaded: 0,
        bytes_uploaded: 0,
        pieces_fetched: vec![],
    };
    let q = announce_query(&ih, &pid, 6881, &fresh);
    assert!(q.starts_with("info_hash=%11%f6%ad%8e"));
    assert!(q.contains("&peer_id=AZ&port=6881"));
    assert!(q.ends_with("&event=started"));

    let part = DownloadProgress {
        bytes_total: 100,
        bytes_downloaded: 40,
        ..Default::default()
    };
    let q = announce_query(&ih, &pid, 6881, &part);
    assert!(q.ends_with("&downloaded=40"));

    let done = DownloadProgress {
        bytes_total: 100,
        bytes_downloaded: 100,
        ..Default::default()
    };
    let q = announce_query(&ih, &pid, 6881, &done);
    assert!(q.ends_with("&downloaded=100&event=finished"));
}

#[test]
fn next_delay_uses_tracker_interval() {
    assert_eq!(next_announce_delay(Some(1800)), 1800);
    assert_eq!(next_announce_delay(None), 60);
}

#[test]
fn url_encoding_escapes_and_round_trips() {
    // every byte outside the safe set becomes a two-hex-digit escape
    let enc = url_encode_byte_string(vec![0x00, 0x1f, b'%', b'A', 0x7f, 0xff]);
    assert_eq!(enc, "%00%1f%25A%7f%ff");
    // the strict external percent-decoder recovers the original bytes
    let original: Vec<u8> = (0u16..=255).map(|b| b as u8).collect();
    let enc = url_encode_byte_string(original.clone());
    let decoded: Vec<u8> = percent_encoding::percent_decode_str(&enc).collect();
    assert_eq!(decoded, original);
}

#[test]
fn download_progress_finished() {
    let mut p = DownloadProgress::default();
    assert!(p.finished());
    p.bytes_total = 10;
    assert!(!p.finished());
    p.bytes_downloaded = 10;
    assert!(p.finished());
}

#[test]
fn malformed_response_is_invalid_announce() {
    assert!(matches!(
        PeerInfoResult::from_bytes(b"not bencode".to_vec()),
        Err(TorrentError::InvalidAnnounceResponse(_))
    ));
    // a blob whose length is not a multiple of six cannot be a peer list
    assert!(matches!(
        decode_announce_response(b"d8:completei1e10:incompletei0e8:intervali60e5:peers4:abcde"),
        Err(TorrentError::InvalidAnnounceResponse(_))
    ));
}

use torrent_core::bencode::{BValue, DecodeError};

#[test]
fn peer_decoder_names_the_error() {
    // an unknown key in the closed peer schema
    let v = BValue::Dict(vec![
        (b"ip".to_vec(), BValue::Bytes(b"1.2.3.4".to_vec())),
        (b"port".to_vec(), BValue::Int(6881)),
        (b"bogus".to_vec(), BValue::Int(1)),
    ]);
    assert!(matches!(
        Peer::decode_bencode_object(&v),
        Err(DecodeError::UnexpectedField(_))
    ));
    // a missing required key
    let v = BValue::Dict(vec![(b"ip".to_vec(), BValue::Bytes(b"1.2.3.4".to_vec()))]);
    assert!(matches!(
        Peer::decode_bencode_object(&v),
        Err(DecodeError::MissingField(_))
    ));
}

#[test]
fn announce_decoder_names_the_error() {
    // an unknown key in the closed announce schema
    let v = BValue::Dict(vec![
        (b"interval".to_vec(), BValue::Int(60)),
        (b"bogus".to_vec(), BValue::Int(1)),
    ]);
    assert!(matches!(
        PeerInfoResult::decode_bencode_object(&v),
        Err(DecodeError::UnexpectedField(_))
    ));
    // missing counters or peers
    let v = BValue::Dict(vec![(b"interval".to_vec(), BValue::Int(60))]);
    assert!(matches!(
        PeerInfoResult::decode_bencode_object(&v),
        Err(DecodeError::MissingField(_))
    ));
}

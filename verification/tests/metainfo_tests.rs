use torrent_core::bencode::DecodeError;
use torrent_core::metainfo::{Info, MetaInfoFile};

const PIECE_HASH: [u8; 20] = [
    158, 81, 131, 3, 156, 214, 31, 200, 134, 82, 27, 120, 148, 98, 234, 31, 1, 45, 116, 118,
];

const INFO_HASH: [u8; 20] = [
    96, 189, 133, 230, 32, 179, 45, 224, 9, 35, 159, 130, 233, 15, 167, 133, 21, 106, 160, 182,
];

fn single_file_fixture() -> Vec<u8> {
    let mut t: Vec<u8> = Vec::new();
    t.extend_from_slice(b"d8:announce23:http://tracker.test/ann4:info");
    t.extend_from_slice(b"d6:lengthi16384e4:name8:demo.bin12:piece lengthi16384e6:pieces20:");
    t.extend_from_slice(&PIECE_HASH);
    t.extend_from_slice(b"ee");
    t
}

#[test]
fn round_trip_info_hash() {
    let torrent = single_file_fixture();
    let meta = MetaInfoFile::from_bencode(&torrent).unwrap();
    assert_eq!(meta.announce, "http://tracker.test/ann".to_string());
    assert_eq!(meta.info_hash.as_bytes(), &INFO_HASH);
    match &meta.info {
        Info::SingleFileInfo {
            name,
            piece_length,
            pieces,
            length,
            private,
        } => {
            assert_eq!(name, "demo.bin");
            assert_eq!(*piece_length, 16384);
            assert_eq!(*length, 16384);
            assert_eq!(pieces.len(), 1);
            assert_eq!(pieces[0], "9e5183039cd61fc886521b789462ea1f012d7476");
            assert!(private.is_none());
        }
        _ => panic!("expected a single-file torrent"),
    }
}

#[test]
fn multi_file_and_announce_list() {
    let mut t: Vec<u8> = Vec::new();
    t.extend_from_slice(b"d8:announce5:url-a13:announce-listll5:url-a5:url-bel5:url-cee");
    t.extend_from_slice(b"4:infod5:filesld6:lengthi3e4:pathl1:a1:beed6:lengthi3e4:pathl1:ceee");
    t.extend_from_slice(b"4:name3:dir12:piece lengthi4e6:pieces40:");
    t.extend_from_slice(&PIECE_HASH);
    t.extend_from_slice(&PIECE_HASH);
    t.extend_from_slice(b"7:privatei1ee");
    t.extend_from_slice(b"e");
    let meta = MetaInfoFile::from_bencode(&t).unwrap();
    assert_eq!(
        meta.announce_list,
        Some(vec![
            "url-a".to_string(),
            "url-b".to_string(),
            "url-c".to_string()
        ])
    );
    match &meta.info {
        Info::MultiFileInfo {
            name,
            piece_length,
            pieces,
            private,
            files,
        } => {
            assert_eq!(name, "dir");
            assert_eq!(*piece_length, 4);
            assert_eq!(pieces.len(), 2);
            assert_eq!(*private, Some(true));
            assert_eq!(files.len(), 2);
            assert_eq!(files[0].length, 3);
            assert_eq!(files[0].path, vec!["a".to_string(), "b".to_string()]);
            assert_eq!(files[1].path, vec!["c".to_string()]);
        }
        _ => panic!("expected a multi-file torrent"),
    }
}

#[test]
fn optional_metadata_fields() {
    let mut t: Vec<u8> = Vec::new();
    t.extend_from_slice(b"d8:announce3:url7:comment2:hi10:created by2:me13:creation datei99e");
    t.extend_from_slice(b"8:encoding5:UTF-84:info");
    t.extend_from_slice(b"d6:lengthi16384e4:name8:demo.bin12:piece lengthi16384e6:pieces20:");
    t.extend_from_slice(&PIECE_HASH);
    t.extend_from_slice(b"ee");
    let meta = MetaInfoFile::from_bencode(&t).unwrap();
    assert_eq!(meta.comment, Some("hi".to_string()));
    assert_eq!(meta.created_by, Some("me".to_string()));
    assert_eq!(meta.creation_date, Some(99));
    assert_eq!(meta.encoding, Some("UTF-8".to_string()));
}

#[test]
fn rejects_bad_descriptors() {
    // no announce key
    let mut t: Vec<u8> = Vec::new();
    t.extend_from_slice(b"d4:infod6:lengthi1e4:name1:x12:piece lengthi1e6:pieces20:");
    t.extend_from_slice(&PIECE_HASH);
    t.extend_from_slice(b"ee");
    assert!(MetaInfoFile::from_bencode(&t).is_err());
    // no info key
    assert!(MetaInfoFile::from_bencode(b"d8:announce3:urle").is_err());
    // an unknown key inside the closed info schema
    let mut t: Vec<u8> = Vec::new();
    t.extend_from_slice(b"d8:announce3:url4:infod5:bogusi1e6:lengthi1e4:name1:x");
    t.extend_from_slice(b"12:piece lengthi1e6:pieces20:");
    t.extend_from_slice(&PIECE_HASH);
    t.extend_from_slice(b"ee");
    assert!(MetaInfoFile::from_bencode(&t).is_err());
    // neither length nor files selects a variant: hard failure
    assert!(MetaInfoFile::from_bencode(
        b"d8:announce3:url4:infod4:name1:x12:piece lengthi1e6:pieces0:ee"
    )
    .is_err());
    // pieces not a multiple of twenty bytes
    assert!(MetaInfoFile::from_bencode(
        b"d8:announce3:url4:infod6:lengthi1e4:name1:x12:piece lengthi1e6:pieces3:abcee"
    )
    .is_err());
}

#[test]
fn error_variants_name_the_field() {
    // a required key is absent
    let mut t: Vec<u8> = Vec::new();
    t.extend_from_slice(b"d4:infod6:lengthi1e4:name1:x12:piece lengthi1e6:pieces20:");
    t.extend_from_slice(&PIECE_HASH);
    t.extend_from_slice(b"ee");
    assert!(matches!(
        MetaInfoFile::from_bencode(&t),
        Err(DecodeError::MissingField(_))
    ));
    // an unknown key in a closed schema
    let mut t: Vec<u8> = Vec::new();
    t.extend_from_slice(b"d8:announce3:url4:infod5:bogusi1e6:lengthi1e4:name1:x");
    t.extend_from_slice(b"12:piece lengthi1e6:pieces20:");
    t.extend_from_slice(&PIECE_HASH);
    t.extend_from_slice(b"ee");
    assert!(matches!(
        MetaInfoFile::from_bencode(&t),
        Err(DecodeError::UnexpectedField(_))
    ));
    // a known key of the wrong shape
    assert!(matches!(
        MetaInfoFile::from_bencode(b"d8:announcei1e4:infod6:lengthi1e4:name1:x12:piece lengthi1e6:pieces0:ee"),
        Err(DecodeError::InvalidField(_))
    ));
}

#[test]
fn names_decode_as_utf8_text() {
    // "caf\u{e9}.bin": the name bytes are UTF-8, not Latin-1
    let mut t: Vec<u8> = Vec::new();
    t.extend_from_slice(b"d8:announce3:url4:infod6:lengthi1e4:name9:caf");
    t.extend_from_slice(&[0xc3, 0xa9]);
    t.extend_from_slice(b".bin12:piece lengthi1e6:pieces20:");
    t.extend_from_slice(&PIECE_HASH);
    t.extend_from_slice(b"ee");
    let meta = MetaInfoFile::from_bencode(&t).unwrap();
    match &meta.info {
        Info::SingleFileInfo { name, .. } => {
            assert_eq!(name.chars().count(), 8);
            assert_eq!(name, "caf\u{e9}.bin");
        }
        _ => panic!("expected a single-file torrent"),
    }
    // invalid UTF-8 in the name is refused
    let mut t: Vec<u8> = Vec::new();
    t.extend_from_slice(b"d8:announce3:url4:infod6:lengthi1e4:name2:");
    t.extend_from_slice(&[0xff, 0xfe]);
    t.extend_from_slice(b"12:piece lengthi1e6:pieces20:");
    t.extend_from_slice(&PIECE_HASH);
    t.extend_from_slice(b"ee");
    assert!(MetaInfoFile::from_bencode(&t).is_err());
}

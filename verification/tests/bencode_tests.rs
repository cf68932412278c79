use torrent_core::bencode::{decode, BValue, DecodeError};

fn int_of(v: &BValue) -> i64 {
    match v {
        BValue::Int(i) => *i,
        _ => panic!("expected an integer"),
    }
}

#[test]
fn decode_integer() {
    let v = decode(b"i42e").unwrap();
    assert_eq!(int_of(&v), 42);
    let v = decode(b"i-7e").unwrap();
    assert_eq!(int_of(&v), -7);
    let v = decode(b"i0e").unwrap();
    assert_eq!(int_of(&v), 0);
}

#[test]
fn decode_byte_string() {
    let v = decode(b"4:spam").unwrap();
    match v {
        BValue::Bytes(b) => assert_eq!(b, b"spam".to_vec()),
        _ => panic!("expected bytes"),
    }
    let v = decode(b"0:").unwrap();
    match v {
        BValue::Bytes(b) => assert_eq!(b.len(), 0),
        _ => panic!("expected bytes"),
    }
}

#[test]
fn decode_list_and_dict() {
    let v = decode(b"l4:spami3ee").unwrap();
    match v {
        BValue::List(items) => {
            assert_eq!(items.len(), 2);
            assert_eq!(int_of(&items[1]), 3);
        }
        _ => panic!("expected a list"),
    }
    let v = decode(b"d3:cow3:moo4:spami4ee").unwrap();
    match v {
        BValue::Dict(entries) => {
            assert_eq!(entries.len(), 2);
            assert_eq!(entries[0].0, b"cow".to_vec());
            assert_eq!(int_of(&entries[1].1), 4);
        }
        _ => panic!("expected a dictionary"),
    }
}

#[test]
fn malformed_offsets() {
    // truncated integer: the missing 'e' is noticed at offset 3
    match decode(b"i42") {
        Err(DecodeError::MalformedEncoding(off)) => assert_eq!(off, 3),
        _ => panic!("expected a malformed-encoding error"),
    }
    // a leading zero is not canonical
    assert!(matches!(
        decode(b"i03e"),
        Err(DecodeError::MalformedEncoding(1))
    ));
    // -0 is not canonical
    assert!(matches!(
        decode(b"i-0e"),
        Err(DecodeError::MalformedEncoding(2))
    ));
    // trailing data after the document
    assert!(matches!(
        decode(b"i1ei2e"),
        Err(DecodeError::MalformedEncoding(3))
    ));
    // string data shorter than its length prefix
    assert!(matches!(
        decode(b"9:ab"),
        Err(DecodeError::MalformedEncoding(1))
    ));
    // unterminated list
    assert!(matches!(
        decode(b"li1e"),
        Err(DecodeError::MalformedEncoding(4))
    ));
    // empty input
    assert!(matches!(
        decode(b""),
        Err(DecodeError::MalformedEncoding(0))
    ));
}

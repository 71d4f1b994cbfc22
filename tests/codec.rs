use bittorrent_core::bencode::{decode, encode, DecodeError, Value};
use bittorrent_core::torrent::{info_hash, MetainfoError, Torrent};
use sha1::{Digest, Sha1};

fn bytes(v: &Value) -> Vec<u8> {
    match v {
        Value::Bytes(b) => b.clone(),
        other => panic!("not a byte string: {:?}", other),
    }
}

#[test]
fn decodes_byte_string() {
    let (v, n) = decode(b"5:hello rest").unwrap();
    assert_eq!(bytes(&v), b"hello".to_vec());
    assert_eq!(n, 7);
}

#[test]
fn decodes_empty_byte_string() {
    let (v, n) = decode(b"0:").unwrap();
    assert_eq!(bytes(&v), Vec::<u8>::new());
    assert_eq!(n, 2);
}

#[test]
fn decodes_integers() {
    assert!(matches!(decode(b"i52e").unwrap(), (Value::Int(52), 4)));
    assert!(matches!(decode(b"i-42e").unwrap(), (Value::Int(-42), 5)));
    assert!(matches!(decode(b"i0e").unwrap(), (Value::Int(0), 3)));
    assert!(matches!(decode(b"i9223372036854775807e").unwrap(), (Value::Int(i64::MAX), 21)));
    assert!(matches!(decode(b"i-9223372036854775808e").unwrap(), (Value::Int(i64::MIN), 22)));
}

#[test]
fn decodes_nested_list() {
    let (v, n) = decode(b"l5:helloi52elee").unwrap();
    assert_eq!(n, 15);
    match v {
        Value::List(items) => {
            assert_eq!(items.len(), 3);
            assert_eq!(bytes(&items[0]), b"hello".to_vec());
            assert!(matches!(items[1], Value::Int(52)));
            assert!(matches!(&items[2], Value::List(inner) if inner.is_empty()));
        }
        other => panic!("not a list: {:?}", other),
    }
}

#[test]
fn dictionary_keeps_key_order() {
    let input = b"d3:zzzi1e3:aaai2ee";
    let (v, n) = decode(input).unwrap();
    assert_eq!(n, input.len());
    match &v {
        Value::Dict(entries) => {
            assert_eq!(entries.len(), 2);
            assert_eq!(entries[0].0, b"zzz".to_vec());
            assert_eq!(entries[1].0, b"aaa".to_vec());
        }
        other => panic!("not a dictionary: {:?}", other),
    }
    assert_eq!(encode(&v), input.to_vec());
}

#[test]
fn round_trip_of_decoded_values() {
    let inputs: Vec<&[u8]> = vec![
        b"4:spam",
        b"i-17e",
        b"le",
        b"de",
        b"d8:announce3:url4:infod6:lengthi10e4:name1:a12:piece lengthi4e6:pieces0:ee",
        b"ll1:ai1eed1:bleee",
    ];
    for input in inputs {
        let (v, n) = decode(input).unwrap();
        assert_eq!(n, input.len());
        let encoded = encode(&v);
        assert_eq!(encoded, input.to_vec());
        let (again, m) = decode(&encoded).unwrap();
        assert_eq!(m, encoded.len());
        assert_eq!(encode(&again), encoded);
    }
}

#[test]
fn encodes_built_values() {
    let v = Value::Dict(vec![
        (b"b".to_vec(), Value::Int(-3)),
        (b"a".to_vec(), Value::List(vec![Value::Bytes(b"xy".to_vec()), Value::Int(0)])),
    ]);
    assert_eq!(encode(&v), b"d1:bi-3e1:al2:xyi0eee".to_vec());
}

#[test]
fn decode_errors() {
    assert_eq!(decode(b"").unwrap_err(), DecodeError::MalformedValue);
    assert_eq!(decode(b"x").unwrap_err(), DecodeError::MalformedValue);
    assert_eq!(decode(b"l1:a").unwrap_err(), DecodeError::MalformedValue);
    assert_eq!(decode(b"5:hi").unwrap_err(), DecodeError::Truncated);
    assert_eq!(decode(b"5hello").unwrap_err(), DecodeError::MalformedLength);
    assert_eq!(decode(b"05:hello").unwrap_err(), DecodeError::MalformedLength);
    assert_eq!(decode(b"i12").unwrap_err(), DecodeError::MalformedInteger);
    assert_eq!(decode(b"i1x2e").unwrap_err(), DecodeError::MalformedInteger);
    assert_eq!(decode(b"i03e").unwrap_err(), DecodeError::MalformedInteger);
    assert_eq!(decode(b"i-0e").unwrap_err(), DecodeError::MalformedInteger);
    assert_eq!(decode(b"ie").unwrap_err(), DecodeError::MalformedInteger);
    assert_eq!(decode(b"i9223372036854775808e").unwrap_err(), DecodeError::MalformedInteger);
    assert_eq!(decode(b"di1ei2ee").unwrap_err(), DecodeError::NonStringKey);
}

fn sample_torrent() -> Vec<u8> {
    let mut t = b"d8:announce22:http://tracker.example4:infod6:lengthi1024e4:name8:file.bin12:piece lengthi400e6:pieces60:".to_vec();
    for i in 0..60u8 {
        t.push(i);
    }
    t.extend_from_slice(b"ee");
    t
}

#[test]
fn reads_metainfo_fields() {
    let file = sample_torrent();
    let (v, _) = decode(&file).unwrap();
    let t = Torrent::from_value(&v).unwrap();
    assert_eq!(t.announce, b"http://tracker.example".to_vec());
    assert_eq!(t.info.length, 1024);
    assert_eq!(t.info.name, b"file.bin".to_vec());
    assert_eq!(t.info.plength, 400);
    assert_eq!(t.info.pieces.0.len(), 3);
    assert_eq!(t.info.pieces.0[1][0], 20);
    assert_eq!(t.info.pieces.0[2][19], 59);
}

#[test]
fn info_hash_is_digest_of_info_bytes() {
    let file = sample_torrent();
    let (v, _) = decode(&file).unwrap();
    let start = file.windows(6).position(|w| w == b"4:info").unwrap() + 6;
    let info_bytes = &file[start..file.len() - 1];
    let expected: [u8; 20] = Sha1::digest(info_bytes).into();
    let h = info_hash(&v).unwrap();
    assert_eq!(h, expected);
    assert_ne!(h.to_vec(), info_bytes[..20].to_vec());
}

#[test]
fn info_hash_twice_is_the_same() {
    let file = sample_torrent();
    let (v1, _) = decode(&file).unwrap();
    let (v2, _) = decode(&file).unwrap();
    assert_eq!(info_hash(&v1).unwrap(), info_hash(&v2).unwrap());
    assert_eq!(info_hash(&v1).unwrap(), info_hash(&v1).unwrap());
}

#[test]
fn info_hash_needs_info() {
    let (v, _) = decode(b"d8:announce1:ae").unwrap();
    assert!(info_hash(&v).is_none());
}

#[test]
fn metainfo_errors() {
    let (v, _) = decode(b"d8:announce1:a4:infod6:lengthi10e4:name1:a12:piece lengthi4e6:pieces30:012345678901234567890123456789ee").unwrap();
    assert_eq!(Torrent::from_value(&v).unwrap_err(), MetainfoError::InvalidPiecesField);
    let (v, _) = decode(b"d4:infod6:lengthi10e4:name1:a12:piece lengthi4e6:pieces0:ee").unwrap();
    assert_eq!(Torrent::from_value(&v).unwrap_err(), MetainfoError::InvalidMetainfo);
    let (v, _) = decode(b"d8:announce1:a4:infod6:lengthi10e4:name1:a12:piece lengthi4e6:pieces20:01234567890123456789ee").unwrap();
    assert_eq!(Torrent::from_value(&v).unwrap_err(), MetainfoError::InvalidMetainfo);
    let (v, _) = decode(b"d8:announce1:a4:infod6:lengthi10e4:name1:a12:piece lengthi0e6:pieces0:ee").unwrap();
    assert_eq!(Torrent::from_value(&v).unwrap_err(), MetainfoError::InvalidMetainfo);
}

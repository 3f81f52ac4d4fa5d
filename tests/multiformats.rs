use libipld::{
    decode_cid, decode_cid_text, decode_multibase, encode_cid, encode_cid_text, encode_multibase,
    ErrorKind,
};

fn sample_cid() -> Vec<u8> {
    let mut c = vec![0x01, 0x71, 0x12, 0x20];
    c.extend((0u8..32).map(|i| i.wrapping_mul(7).wrapping_add(3)));
    c
}

const SAMPLE_TEXT: &str = "bafyreiadbiirqhzgfu2dwqsjkblv4zlmon5idceps2o2jk5sxhamptwv3q";

#[test]
fn cid_parts_from_bytes() {
    let info = decode_cid(&sample_cid()).unwrap();
    assert_eq!(info.version, 1);
    assert_eq!(info.codec, 0x71);
    assert_eq!(info.hash_code, 0x12);
    assert_eq!(info.hash_size, 32);
    assert_eq!(info.digest, sample_cid()[4..].to_vec());
    assert_eq!(decode_cid(&[0xff, 0xff]).unwrap_err().kind, ErrorKind::InvalidCid);
}

#[test]
fn cid_parts_from_text() {
    let info = decode_cid_text(SAMPLE_TEXT).unwrap();
    assert_eq!(info.codec, 0x71);
    assert_eq!(info.digest, sample_cid()[4..].to_vec());
    assert_eq!(decode_cid_text("not a cid").unwrap_err().kind, ErrorKind::InvalidCid);
}

#[test]
fn cid_text_forms() {
    assert_eq!(encode_cid(&sample_cid()).unwrap(), SAMPLE_TEXT);
    assert_eq!(encode_cid_text(SAMPLE_TEXT).unwrap(), SAMPLE_TEXT);
    assert_eq!(encode_cid(&[0x05]).unwrap_err().kind, ErrorKind::InvalidCid);
}

#[test]
fn multibase_round_trip() {
    assert_eq!(encode_multibase('z', b"hello").unwrap(), "zCn8eVZg");
    assert_eq!(decode_multibase("zCn8eVZg").unwrap(), ('z', b"hello".to_vec()));
    assert_eq!(encode_multibase('f', &[0xab, 0x01]).unwrap(), "fab01");
    assert!(encode_multibase('b', &[1, 2, 3]).unwrap().starts_with('b'));
}

#[test]
fn multibase_errors() {
    assert_eq!(encode_multibase('!', b"x").unwrap_err().kind, ErrorKind::UnsupportedFeature);
    assert_eq!(
        encode_multibase('\0', &[0xff, 0xfe]).unwrap_err().kind,
        ErrorKind::UnsupportedFeature
    );
    assert_eq!(encode_multibase('\0', b"ok").unwrap(), "\0ok");
    assert_eq!(decode_multibase("!abc").unwrap_err().kind, ErrorKind::UnsupportedFeature);
    assert_eq!(decode_multibase("").unwrap_err().kind, ErrorKind::UnsupportedFeature);
}

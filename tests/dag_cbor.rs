use libipld::{
    decode_car, decode_dag_cbor, decode_dag_cbor_multi, decode_dag_cbor_with_limit,
    encode_dag_cbor, encode_dag_cbor_bytes_as_links, read_u64_leb128, BufWriter, ErrorKind, Value,
};

fn hex(s: &str) -> Vec<u8> {
    let clean: Vec<char> = s.chars().filter(|c| !c.is_whitespace()).collect();
    clean
        .chunks(2)
        .map(|p| u8::from_str_radix(&p.iter().collect::<String>(), 16).unwrap())
        .collect()
}

/// A DAG-CBOR CID: version 1, codec 0x71, sha2-256 multihash of 32 bytes.
fn sample_cid() -> Vec<u8> {
    let mut c = vec![0x01, 0x71, 0x12, 0x20];
    c.extend((0u8..32).map(|i| i.wrapping_mul(7).wrapping_add(3)));
    c
}

fn kind_of<T>(r: Result<T, libipld::Error>) -> ErrorKind {
    match r {
        Ok(_) => panic!("expected an error"),
        Err(e) => e.kind,
    }
}

fn key_order(v: &Value) -> Vec<String> {
    match v {
        Value::Dict(es) => es.iter().map(|(k, _)| k.clone()).collect(),
        _ => panic!("not a map"),
    }
}

#[test]
fn empty_map_round_trip() {
    let b = hex("a0");
    let v = decode_dag_cbor(&b).unwrap();
    assert!(matches!(&v, Value::Dict(es) if es.is_empty()));
    assert_eq!(encode_dag_cbor(&v).unwrap(), b);
}

#[test]
fn small_list_round_trip() {
    let b = hex("82 01 02");
    let v = decode_dag_cbor(&b).unwrap();
    match &v {
        Value::List(items) => {
            assert_eq!(items.len(), 2);
            assert!(matches!(items[0], Value::Integer(1)));
            assert!(matches!(items[1], Value::Integer(2)));
        }
        _ => panic!("not a list"),
    }
    assert_eq!(encode_dag_cbor(&v).unwrap(), b);
}

#[test]
fn sorted_map_accepted_unsorted_rejected() {
    let ok = decode_dag_cbor(&hex("a2 61 61 01 61 62 02")).unwrap();
    assert_eq!(key_order(&ok), vec!["a".to_string(), "b".to_string()]);
    assert_eq!(kind_of(decode_dag_cbor(&hex("a2 61 62 02 61 61 01"))), ErrorKind::NonCanonical);
}

#[test]
fn duplicate_keys_rejected() {
    assert_eq!(kind_of(decode_dag_cbor(&hex("a2 61 61 01 61 61 02"))), ErrorKind::NonCanonical);
    let v = Value::Dict(vec![
        ("a".to_string(), Value::Integer(1)),
        ("a".to_string(), Value::Integer(2)),
    ]);
    assert_eq!(kind_of(encode_dag_cbor(&v)), ErrorKind::NonCanonical);
}

#[test]
fn nan_rejected() {
    assert_eq!(
        kind_of(decode_dag_cbor(&hex("fb 7f f8 00 00 00 00 00 00"))),
        ErrorKind::NumberOutOfRange
    );
    assert_eq!(kind_of(decode_dag_cbor(&hex("fa 7f 80 00 00"))), ErrorKind::NumberOutOfRange);
    let nan = Value::Float(0x7ff8_0000_0000_0000);
    assert_eq!(kind_of(encode_dag_cbor(&nan)), ErrorKind::NumberOutOfRange);
}

#[test]
fn link_round_trip() {
    let cid = sample_cid();
    let mut b = hex("d8 2a 58 25 00");
    b.extend(&cid);
    let v = decode_dag_cbor(&b).unwrap();
    match &v {
        Value::Link(c) => assert_eq!(c, &cid),
        _ => panic!("not a link"),
    }
    assert_eq!(encode_dag_cbor(&v).unwrap(), b);
}

#[test]
fn link_errors() {
    // missing 0x00 prefix
    let mut b = hex("d8 2a 58 25 01");
    b.extend(&sample_cid());
    assert_eq!(kind_of(decode_dag_cbor(&b)), ErrorKind::InvalidCid);
    // not a CID
    assert_eq!(kind_of(decode_dag_cbor(&hex("d8 2a 42 00 ff"))), ErrorKind::InvalidCid);
    // other tag
    assert_eq!(kind_of(decode_dag_cbor(&hex("c1 01"))), ErrorKind::UnsupportedFeature);
    assert_eq!(kind_of(encode_dag_cbor(&Value::Link(vec![0xff]))), ErrorKind::InvalidCid);
}

#[test]
fn trailing_data_and_sequences() {
    assert_eq!(kind_of(decode_dag_cbor(&hex("a0 a0"))), ErrorKind::TrailingData);
    let vs = decode_dag_cbor_multi(&hex("a0 a0"));
    assert_eq!(vs.len(), 2);
    assert!(vs.iter().all(|v| matches!(v, Value::Dict(es) if es.is_empty())));
    // stops at the first bad item
    assert_eq!(decode_dag_cbor_multi(&hex("01 ff 02")).len(), 1);
    assert_eq!(decode_dag_cbor_multi(&[]).len(), 0);
}

#[test]
fn length_first_key_order() {
    let v = Value::Dict(vec![
        ("bb".to_string(), Value::Integer(1)),
        ("a".to_string(), Value::Integer(2)),
    ]);
    let b = encode_dag_cbor(&v).unwrap();
    assert_eq!(b, hex("a2 61 61 02 62 62 62 01"));
    let back = decode_dag_cbor(&b).unwrap();
    assert_eq!(key_order(&back), vec!["a".to_string(), "bb".to_string()]);
}

#[test]
fn permuted_maps_encode_alike() {
    let v1 = Value::Dict(vec![
        ("zz".to_string(), Value::Null),
        ("b".to_string(), Value::Bool(true)),
        ("aaa".to_string(), Value::Integer(-5)),
        ("a".to_string(), Value::Bool(false)),
    ]);
    let v2 = Value::Dict(vec![
        ("a".to_string(), Value::Bool(false)),
        ("aaa".to_string(), Value::Integer(-5)),
        ("b".to_string(), Value::Bool(true)),
        ("zz".to_string(), Value::Null),
    ]);
    assert_eq!(encode_dag_cbor(&v1).unwrap(), encode_dag_cbor(&v2).unwrap());
}

#[test]
fn integer_widths_and_range() {
    let cases: Vec<(i128, &str)> = vec![
        (0, "00"),
        (23, "17"),
        (24, "18 18"),
        (255, "18 ff"),
        (256, "19 01 00"),
        (65536, "1a 00 01 00 00"),
        (4294967296, "1b 00 00 00 01 00 00 00 00"),
        (-1, "20"),
        (-25, "38 18"),
        (18446744073709551615, "1b ff ff ff ff ff ff ff ff"),
        (-18446744073709551616, "3b ff ff ff ff ff ff ff ff"),
    ];
    for (i, h) in cases {
        let b = encode_dag_cbor(&Value::Integer(i)).unwrap();
        assert_eq!(b, hex(h), "encoding {}", i);
        assert!(matches!(decode_dag_cbor(&b).unwrap(), Value::Integer(j) if j == i));
    }
    assert_eq!(
        kind_of(encode_dag_cbor(&Value::Integer(18446744073709551616))),
        ErrorKind::NumberOutOfRange
    );
    assert_eq!(
        kind_of(encode_dag_cbor(&Value::Integer(-18446744073709551617))),
        ErrorKind::NumberOutOfRange
    );
    // non-minimal widths are accepted on decode
    assert!(matches!(decode_dag_cbor(&hex("18 01")).unwrap(), Value::Integer(1)));
}

#[test]
fn floats() {
    let one = 1.5f64;
    let b = encode_dag_cbor(&Value::Float(one.to_bits())).unwrap();
    assert_eq!(b, hex("fb 3f f8 00 00 00 00 00 00"));
    assert!(matches!(decode_dag_cbor(&b).unwrap(), Value::Float(x) if x == one.to_bits()));
    // binary32 input widens to binary64
    for f in [1.5f32, -0.0, 3.4e38, 1.0e-45, 1.17e-38, 0.1] {
        let mut b = vec![0xfa];
        b.extend(f.to_bits().to_be_bytes());
        match decode_dag_cbor(&b).unwrap() {
            Value::Float(x) => assert_eq!(x, (f as f64).to_bits(), "widening {}", f),
            _ => panic!("not a float"),
        }
    }
    // half precision is not part of the profile
    assert_eq!(kind_of(decode_dag_cbor(&hex("f9 3c 00"))), ErrorKind::UnsupportedFeature);
}

#[test]
fn strings_and_bytes() {
    let v = Value::String("héllo".to_string());
    let b = encode_dag_cbor(&v).unwrap();
    assert_eq!(b, hex("66 68 c3 a9 6c 6c 6f"));
    assert!(matches!(decode_dag_cbor(&b).unwrap(), Value::String(s) if s == "héllo"));
    assert_eq!(kind_of(decode_dag_cbor(&hex("62 c3 28"))), ErrorKind::InvalidCbor);
    let bytes = Value::Bytes(vec![1, 2, 3]);
    assert_eq!(encode_dag_cbor(&bytes).unwrap(), hex("43 01 02 03"));
}

#[test]
fn strictness_errors() {
    assert_eq!(kind_of(decode_dag_cbor(&[])), ErrorKind::InvalidCbor);
    assert_eq!(kind_of(decode_dag_cbor(&hex("9f 01 ff"))), ErrorKind::UnsupportedFeature);
    assert_eq!(kind_of(decode_dag_cbor(&hex("5f 41 00 ff"))), ErrorKind::UnsupportedFeature);
    assert_eq!(kind_of(decode_dag_cbor(&hex("a1 01 02"))), ErrorKind::UnsupportedFeature);
    assert_eq!(kind_of(decode_dag_cbor(&hex("f7"))), ErrorKind::UnsupportedFeature);
    assert_eq!(kind_of(decode_dag_cbor(&hex("1c"))), ErrorKind::InvalidCbor);
    assert_eq!(kind_of(decode_dag_cbor(&hex("82 01"))), ErrorKind::InvalidCbor);
    assert_eq!(kind_of(decode_dag_cbor(&hex("43 01"))), ErrorKind::InvalidCbor);
    assert_eq!(kind_of(decode_dag_cbor(&hex("19 01"))), ErrorKind::InvalidCbor);
}

#[test]
fn recursion_limit() {
    assert!(decode_dag_cbor_with_limit(&hex("81 81 01"), 2).is_ok());
    assert_eq!(
        kind_of(decode_dag_cbor_with_limit(&hex("81 81 01"), 1)),
        ErrorKind::RecursionLimit
    );
    let mut deep = vec![0x81u8; 2000];
    deep.push(0x01);
    assert_eq!(kind_of(decode_dag_cbor(&deep)), ErrorKind::RecursionLimit);
}

#[test]
fn bytes_as_links() {
    let cid = sample_cid();
    let v = Value::Bytes(cid.clone());
    let mut link = hex("d8 2a 58 25 00");
    link.extend(&cid);
    assert_eq!(encode_dag_cbor_bytes_as_links(&v).unwrap(), link);
    let mut plain = hex("58 24");
    plain.extend(&cid);
    assert_eq!(encode_dag_cbor(&v).unwrap(), plain);
    assert_eq!(encode_dag_cbor_bytes_as_links(&Value::Bytes(vec![7])).unwrap(), hex("41 07"));
}

#[test]
fn leb128() {
    assert_eq!(read_u64_leb128(&[0x05], 0), Ok((5, 1)));
    assert_eq!(read_u64_leb128(&[0xe5, 0x8e, 0x26], 0), Ok((624485, 3)));
    assert_eq!(read_u64_leb128(&[0x80], 0), Err(None));
    let max = hex("ff ff ff ff ff ff ff ff ff 01");
    assert_eq!(read_u64_leb128(&max, 0), Ok((u64::MAX, 10)));
    let over = hex("ff ff ff ff ff ff ff ff ff 02 07");
    assert_eq!(read_u64_leb128(&over, 0), Err(Some(10)));
    let over_long = hex("ff ff ff ff ff ff ff ff ff 82 85 05 07");
    assert_eq!(read_u64_leb128(&over_long, 0), Err(Some(12)));
    let over_cut = hex("ff ff ff ff ff ff ff ff ff 82 85");
    assert_eq!(read_u64_leb128(&over_cut, 0), Err(None));
}

fn car_header(version: i128, roots: usize) -> Vec<u8> {
    let roots: Vec<Value> = (0..roots).map(|_| Value::Link(sample_cid())).collect();
    let h = Value::Dict(vec![
        ("version".to_string(), Value::Integer(version)),
        ("roots".to_string(), Value::List(roots)),
    ]);
    let body = encode_dag_cbor(&h).unwrap();
    let mut out = vec![body.len() as u8];
    out.extend(body);
    out
}

fn car_block(cid: &[u8], value: &Value) -> Vec<u8> {
    let body = encode_dag_cbor(value).unwrap();
    let mut out = vec![(cid.len() + body.len()) as u8];
    out.extend(cid);
    out.extend(body);
    out
}

#[test]
fn car_blocks_in_order() {
    let mut c = car_header(1, 1);
    let mut cids = Vec::new();
    for i in 0..3u8 {
        let mut cid = sample_cid();
        cid[10] = i;
        c.extend(car_block(&cid, &Value::Integer(i as i128)));
        cids.push(cid);
    }
    let (header, blocks) = decode_car(&c).unwrap();
    assert!(matches!(header, Value::Dict(_)));
    assert_eq!(blocks.len(), 3);
    for (i, (cid, v)) in blocks.iter().enumerate() {
        assert_eq!(cid, &cids[i]);
        assert!(matches!(v, Value::Integer(j) if *j == i as i128));
    }
}

#[test]
fn car_header_errors() {
    assert_eq!(kind_of(decode_car(&car_header(2, 1))), ErrorKind::CarFramingError);
    assert_eq!(kind_of(decode_car(&car_header(1, 0))), ErrorKind::CarFramingError);
    assert_eq!(kind_of(decode_car(&[])), ErrorKind::CarFramingError);
    assert_eq!(kind_of(decode_car(&hex("01 a0"))), ErrorKind::CarFramingError);
}

#[test]
fn car_block_errors() {
    let mut wrong_codec = car_header(1, 1);
    let mut cid = sample_cid();
    cid[1] = 0x55;
    wrong_codec.extend(car_block(&cid, &Value::Null));
    assert_eq!(kind_of(decode_car(&wrong_codec)), ErrorKind::CarFramingError);

    let mut bad_cid = car_header(1, 1);
    bad_cid.extend(hex("03 ff ff ff"));
    assert_eq!(kind_of(decode_car(&bad_cid)), ErrorKind::InvalidCid);

    let mut truncated = car_header(1, 1);
    truncated.extend(car_block(&sample_cid(), &Value::Null));
    truncated.pop();
    assert_eq!(kind_of(decode_car(&truncated)), ErrorKind::CarFramingError);

    let mut cut_in_cid = car_header(1, 1);
    let block = car_block(&sample_cid(), &Value::Null);
    cut_in_cid.extend(&block[..10]);
    assert_eq!(kind_of(decode_car(&cut_in_cid)), ErrorKind::CarFramingError);

    let mut cut_in_length = car_header(1, 1);
    cut_in_length.push(0x80);
    assert_eq!(kind_of(decode_car(&cut_in_length)), ErrorKind::CarFramingError);

    let mut short_block = car_header(1, 1);
    let mut frame = car_block(&sample_cid(), &Value::Null);
    frame[0] += 1;
    frame.push(0xf6);
    short_block.extend(frame);
    assert_eq!(kind_of(decode_car(&short_block)), ErrorKind::CarFramingError);
}

#[test]
fn car_header_only() {
    let (_, blocks) = decode_car(&car_header(1, 1)).unwrap();
    assert!(blocks.is_empty());
}

#[test]
fn buf_writer_collects_bytes() {
    let mut w = BufWriter::new();
    assert!(w.get_ref().is_empty());
    w.push(&[1, 2]);
    w.push_byte(3);
    w.push(&[]);
    assert!(w.flush().is_ok());
    assert_eq!(w.get_ref(), &vec![1, 2, 3]);
    assert_eq!(w.into_inner(), vec![1, 2, 3]);
}

#[test]
fn nested_value_round_trip() {
    let v = Value::Dict(vec![
        ("list".to_string(), Value::List(vec![
            Value::Null,
            Value::Bool(true),
            Value::Integer(-300),
            Value::Float((-2.25f64).to_bits()),
            Value::Bytes(vec![0, 1, 2]),
            Value::Link(sample_cid()),
        ])),
        ("a".to_string(), Value::Dict(vec![("x".to_string(), Value::String("y".to_string()))])),
        ("nums".to_string(), Value::List((0..30).map(|i| Value::Integer(i * 1000)).collect())),
    ]);
    let b = encode_dag_cbor(&v).unwrap();
    let back = decode_dag_cbor(&b).unwrap();
    assert_eq!(key_order(&back), vec!["a".to_string(), "list".to_string(), "nums".to_string()]);
    assert_eq!(encode_dag_cbor(&back).unwrap(), b);
}

#[test]
fn nested_maps_in_any_order_encode_alike() {
    let inner1 = Value::Dict(vec![
        ("yy".to_string(), Value::Integer(2)),
        ("x".to_string(), Value::Integer(1)),
    ]);
    let inner2 = Value::Dict(vec![
        ("x".to_string(), Value::Integer(1)),
        ("yy".to_string(), Value::Integer(2)),
    ]);
    let v1 = Value::List(vec![Value::Dict(vec![("k".to_string(), inner1)])]);
    let v2 = Value::List(vec![Value::Dict(vec![("k".to_string(), inner2)])]);
    let b = encode_dag_cbor(&v1).unwrap();
    assert_eq!(b, encode_dag_cbor(&v2).unwrap());
    assert_eq!(b, hex("81 a1 61 6b a2 61 78 01 62 79 79 02"));
}

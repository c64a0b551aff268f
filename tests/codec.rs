use bipf::{
    decode, decode_varint, encode, encode_varint, find_key, iterate_array, iterate_object,
    pack_header, skip_value, unpack_header, value_at, Error, Header, Type, Value, MAX_LEN,
};

fn same<T: std::fmt::Debug>(a: T, b: T) {
    assert_eq!(format!("{:?}", a), format!("{:?}", b));
}

fn bytes_of(v: &Value) -> Vec<u8> {
    let mut out = Vec::new();
    encode(v, &mut out).unwrap();
    out
}

fn round_trip(v: Value) {
    let b = bytes_of(&v);
    let (d, n) = decode(&b, 0).unwrap();
    same(&d, &v);
    assert_eq!(n, b.len());
}

fn sample_object() -> Value {
    Value::Object(vec![
        ("a".to_string(), Value::Integer(1)),
        ("b".to_string(), Value::Integer(2)),
    ])
}

#[test]
fn varint_bytes() {
    assert_eq!(encode_varint(0), vec![0x00]);
    assert_eq!(encode_varint(127), vec![0x7F]);
    assert_eq!(encode_varint(128), vec![0x80, 0x01]);
    assert_eq!(encode_varint(300), vec![0xAC, 0x02]);
    assert_eq!(encode_varint(u64::MAX).len(), 10);
}

#[test]
fn varint_decodes_what_it_encodes() {
    for u in [0u64, 1, 127, 128, 300, 16384, u64::MAX >> 3, u64::MAX] {
        let mut b = encode_varint(u);
        let n = b.len();
        b.push(0x55);
        assert_eq!(decode_varint(&b, 0), Ok((u, n)));
    }
}

#[test]
fn varint_errors() {
    assert_eq!(decode_varint(&[0x80, 0x80], 0), Err(Error::Truncated));
    assert_eq!(decode_varint(&[], 0), Err(Error::Truncated));
    let mut over = vec![0xFF; 9];
    over.push(0x02);
    assert_eq!(decode_varint(&over, 0), Err(Error::Overflow));
    assert_eq!(decode_varint(&[0x80, 0x00], 0), Ok((0, 2)));
    assert_eq!(decode_varint(&[0x01], 2), Err(Error::Truncated));
    assert_eq!(decode_varint(&[0x05, 0x80, 0x01], 1), Ok((128, 2)));
}

#[test]
fn header_packing() {
    assert_eq!(pack_header(Type::Array, 10), Ok(84));
    assert_eq!(unpack_header(84), Header { kind: Type::Array, len: 10 });
    assert_eq!(pack_header(Type::Boolnull, 0), Ok(6));
    assert_eq!(pack_header(Type::String, MAX_LEN + 1), Err(Error::LengthOverflow));
    for kind in [
        Type::String,
        Type::Buffer,
        Type::Integer,
        Type::Double,
        Type::Array,
        Type::Object,
        Type::Boolnull,
        Type::Reserved,
    ] {
        for len in [0u64, 1, 2, 1000, MAX_LEN - 1, MAX_LEN] {
            let raw = pack_header(kind, len).unwrap();
            assert_eq!(unpack_header(raw), Header { kind, len });
        }
    }
}

#[test]
fn encode_string_hi() {
    assert_eq!(bytes_of(&Value::String("hi".to_string())), vec![0x10, 0x68, 0x69]);
}

#[test]
fn encode_boolnull() {
    assert_eq!(bytes_of(&Value::Boolnull(None)), vec![0x06]);
    assert_eq!(bytes_of(&Value::Boolnull(Some(true))), vec![0x0E, 0x01]);
    assert_eq!(bytes_of(&Value::Boolnull(Some(false))), vec![0x0E, 0x00]);
}

#[test]
fn encode_minus_one() {
    assert_eq!(bytes_of(&Value::Integer(-1)), vec![0x22, 0xFF, 0xFF, 0xFF, 0xFF]);
}

#[test]
fn encode_array_of_two_integers() {
    let v = Value::Array(vec![Value::Integer(1), Value::Integer(2)]);
    assert_eq!(bytes_of(&v), vec![0x54, 0x22, 1, 0, 0, 0, 0x22, 2, 0, 0, 0]);
}

#[test]
fn encode_appends_to_sink() {
    let mut out = vec![0xAA];
    encode(&Value::Buffer(vec![1, 2, 3]), &mut out).unwrap();
    assert_eq!(out, vec![0xAA, 0x19, 1, 2, 3]);
}

#[test]
fn encode_reserved_and_double() {
    assert_eq!(bytes_of(&Value::Reserved(300, vec![9])), vec![0x1F, 0xAC, 0x02, 9]);
    let d = 1.5f64.to_bits();
    let mut expected = vec![0x43];
    expected.extend_from_slice(&d.to_le_bytes());
    assert_eq!(bytes_of(&Value::Double(d)), expected);
}

#[test]
fn round_trips() {
    round_trip(Value::String("hi".to_string()));
    round_trip(Value::String(String::new()));
    round_trip(Value::String("héllo wörld ✓".to_string()));
    round_trip(Value::Buffer(vec![]));
    round_trip(Value::Buffer((0..=255).collect()));
    round_trip(Value::Integer(i32::MIN));
    round_trip(Value::Integer(i32::MAX));
    round_trip(Value::Integer(-1));
    round_trip(Value::Double((-0.0f64).to_bits()));
    round_trip(Value::Double(std::f64::consts::PI.to_bits()));
    round_trip(Value::Boolnull(None));
    round_trip(Value::Boolnull(Some(false)));
    round_trip(Value::Reserved(0, vec![]));
    round_trip(Value::Reserved(u64::MAX, vec![1, 2, 3]));
    round_trip(Value::Array(vec![]));
    round_trip(Value::Object(vec![]));
    round_trip(Value::Object(vec![
        ("k".to_string(), Value::Array(vec![Value::Boolnull(Some(true)), sample_object()])),
        ("k".to_string(), Value::Buffer(vec![0; 200])),
        ("".to_string(), Value::String("x".repeat(300))),
    ]));
}

#[test]
fn decode_at_offset() {
    let mut b = vec![0xEE, 0xEE];
    encode(&Value::Integer(7), &mut b).unwrap();
    same(decode(&b, 2), Ok((Value::Integer(7), 5)));
    same(decode(&b, 8), Err(Error::Truncated));
}

#[test]
fn decode_wrong_fixed_lengths() {
    same(decode(&[0x1A, 1, 2, 3], 0), Err(Error::MalformedLength));
    same(decode(&[0x2A, 1, 2, 3, 4, 5], 0), Err(Error::MalformedLength));
    same(decode(&[0x23, 1, 2, 3, 4], 0), Err(Error::MalformedLength));
}

#[test]
fn decode_invalid_utf8() {
    same(decode(&[0x08, 0xFF], 0), Err(Error::InvalidEncoding));
    same(decode(&[0x10, 0xC3, 0x28], 0), Err(Error::InvalidEncoding));
}

#[test]
fn decode_truncated() {
    same(decode(&[0x10, 0x68], 0), Err(Error::Truncated));
    same(decode(&[0x54, 0x22, 1, 0, 0, 0], 0), Err(Error::Truncated));
    same(decode(&[0x80], 0), Err(Error::Truncated));
    same(decode(&[], 0), Err(Error::Truncated));
}

#[test]
fn decode_boolnull_forms() {
    same(decode(&[0x0E, 0x02], 0), Err(Error::MalformedLength));
    same(decode(&[0x16, 0x01, 0x01], 0), Err(Error::MalformedLength));
    same(decode(&[0x0E, 0x01], 0), Ok((Value::Boolnull(Some(true)), 2)));
}

#[test]
fn decode_child_overrunning_array() {
    // An array of 3 payload bytes whose one element claims 4.
    same(decode(&[0x1C, 0x22, 1, 0, 0, 0], 0), Err(Error::MalformedLength));
}

#[test]
fn decode_object_key_not_string() {
    // {1: true}: the key is an integer.
    let b = vec![0x3D, 0x22, 1, 0, 0, 0, 0x0E, 0x01];
    same(decode(&b, 0), Err(Error::TypeMismatch));
    assert_eq!(iterate_object(&b, 0), Err(Error::TypeMismatch));
}

#[test]
fn skip_value_steps_to_array_end() {
    let b = bytes_of(&Value::Array(vec![Value::Integer(1), Value::Integer(2)]));
    assert_eq!(skip_value(&b, 0), Ok(11));
    let first = skip_value(&b, 1).unwrap();
    assert_eq!(first, 6);
    let second = skip_value(&b, first).unwrap();
    assert_eq!(second, 11);
    assert_eq!(skip_value(&b, 11), Err(Error::Truncated));
}

#[test]
fn iterate_array_offsets() {
    let b = bytes_of(&Value::Array(vec![
        Value::Integer(1),
        Value::String("ab".to_string()),
        Value::Boolnull(None),
    ]));
    let items = iterate_array(&b, 0).unwrap();
    assert_eq!(
        items,
        vec![
            (1, Header { kind: Type::Integer, len: 4 }),
            (6, Header { kind: Type::String, len: 2 }),
            (9, Header { kind: Type::Boolnull, len: 0 }),
        ]
    );
    assert_eq!(iterate_array(&bytes_of(&sample_object()), 0), Err(Error::TypeMismatch));
    assert_eq!(iterate_array(&bytes_of(&Value::Array(vec![])), 0), Ok(vec![]));
}

#[test]
fn value_at_index() {
    let b = bytes_of(&Value::Array(vec![Value::Integer(1), Value::Integer(2)]));
    assert_eq!(value_at(&b, 0, 1), Ok(Some((6, Header { kind: Type::Integer, len: 4 }))));
    same(decode(&b, 6), Ok((Value::Integer(2), 5)));
    assert_eq!(value_at(&b, 0, 2), Ok(None));
}

#[test]
fn iterate_object_entries() {
    let b = bytes_of(&sample_object());
    let es = iterate_object(&b, 0).unwrap();
    assert_eq!(es.len(), 2);
    assert_eq!(es[0], (1, Header { kind: Type::String, len: 1 }, 3, Header { kind: Type::Integer, len: 4 }));
    assert_eq!(es[1].2, 10);
}

#[test]
fn find_key_in_object() {
    let b = bytes_of(&sample_object());
    let (off, hd) = find_key(&b, 0, "b").unwrap().unwrap();
    assert_eq!(hd, Header { kind: Type::Integer, len: 4 });
    same(decode(&b, off), Ok((Value::Integer(2), 5)));
    assert_eq!(find_key(&b, 0, "a"), Ok(Some((3, Header { kind: Type::Integer, len: 4 }))));
    assert_eq!(find_key(&b, 0, "c"), Ok(None));
    assert_eq!(find_key(&bytes_of(&Value::Integer(3)), 0, "a"), Err(Error::TypeMismatch));
}

#[test]
fn find_key_first_of_duplicates() {
    let v = Value::Object(vec![
        ("k".to_string(), Value::Integer(1)),
        ("k".to_string(), Value::Integer(2)),
    ]);
    let b = bytes_of(&v);
    let (off, _) = find_key(&b, 0, "k").unwrap().unwrap();
    same(decode(&b, off), Ok((Value::Integer(1), 5)));
}

#[test]
fn find_key_skips_malformed_blobs() {
    // {"x": <reserved whose discriminator never ends>, "y": "ok"}
    let mut payload = vec![0x08, b'x', 0x17, 0x80, 0x80];
    payload.extend_from_slice(&[0x08, b'y', 0x10, b'o', b'k']);
    let mut b = encode_varint(((payload.len() as u64) << 3) | 5);
    b.extend_from_slice(&payload);
    same(decode(&b, 0), Err(Error::MalformedLength));
    let (off, hd) = find_key(&b, 0, "y").unwrap().unwrap();
    assert_eq!(hd, Header { kind: Type::String, len: 2 });
    same(decode(&b, off), Ok((Value::String("ok".to_string()), 3)));
    assert_eq!(find_key(&b, 0, "x"), Ok(Some((3, Header { kind: Type::Reserved, len: 2 }))));
    assert_eq!(find_key(&b, 0, "z"), Ok(None));
}

#[test]
fn padded_headers_are_read() {
    assert_eq!(skip_value(&[0x82, 0x00], 0), Ok(2));
    same(decode(&[0xA2, 0x00, 1, 0, 0, 0], 0), Ok((Value::Integer(1), 6)));
    same(decode(&[0x9F, 0x80, 0x00, 0x81, 0x00, 9], 0), Ok((Value::Reserved(1, vec![9]), 6)));
    let arr = vec![0xDC, 0x00, 0xA2, 0x00, 1, 0, 0, 0, 0x22, 2, 0, 0, 0];
    same(decode(&arr, 0), Ok((Value::Array(vec![Value::Integer(1), Value::Integer(2)]), 13)));
    assert_eq!(
        iterate_array(&arr, 0),
        Ok(vec![(2, Header { kind: Type::Integer, len: 4 }), (8, Header { kind: Type::Integer, len: 4 })])
    );
}

#[test]
fn padded_headers_keep_their_errors() {
    same(decode(&[0x9A, 0x00, 1, 2, 3], 0), Err(Error::MalformedLength));
    same(decode(&[0xA3, 0x00, 1, 2, 3, 4], 0), Err(Error::MalformedLength));
    same(decode(&[0x88, 0x00, 0xFF], 0), Err(Error::InvalidEncoding));
    same(decode(&[0x90, 0x00, 0x68], 0), Err(Error::Truncated));
    assert_eq!(skip_value(&[0x90, 0x00, 0x68], 0), Err(Error::Truncated));
    assert_eq!(skip_value(&[0x29, 0, 0], 0), Err(Error::Truncated));
    assert_eq!(skip_value(&[0x29], 3), Err(Error::Truncated));
}

#[test]
fn find_key_stops_at_first_match() {
    // {"a": 1, then an entry whose key claims more bytes than the object has}
    let b = vec![0x4D, 0x08, b'a', 0x22, 1, 0, 0, 0, 0x29, 0];
    assert_eq!(find_key(&b, 0, "a"), Ok(Some((3, Header { kind: Type::Integer, len: 4 }))));
    assert_eq!(find_key(&b, 0, "b"), Err(Error::MalformedLength));
    assert_eq!(iterate_object(&b, 0), Err(Error::MalformedLength));
    assert_eq!(find_key(&b, 11, "a"), Err(Error::Truncated));
}

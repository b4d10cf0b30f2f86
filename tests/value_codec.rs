use javy_core::codec::{decode, encode, Value};

fn round_trip(v: &Value) {
    let bytes = encode(v).unwrap();
    let back = decode(&bytes).unwrap();
    assert_eq!(encode(&back).unwrap(), bytes);
}

fn nested(depth: usize) -> Value {
    let mut v = Value::Mapping(vec![
        ("ключ".as_bytes().to_vec(), Value::Text("héllo €".as_bytes().to_vec())),
        (Vec::new(), Value::Binary(vec![0, 255, 1])),
    ]);
    for i in 0..depth {
        v = Value::List(vec![Value::Int(i as i64), v, Value::Null]);
    }
    v
}

#[test]
fn exact_scalar_bytes() {
    assert_eq!(encode(&Value::Null).unwrap(), vec![0xc0]);
    assert_eq!(encode(&Value::Bool(false)).unwrap(), vec![0xc2]);
    assert_eq!(encode(&Value::Bool(true)).unwrap(), vec![0xc3]);
    assert_eq!(encode(&Value::Int(1)).unwrap(), vec![0xd3, 0, 0, 0, 0, 0, 0, 0, 1]);
    assert_eq!(encode(&Value::Int(-1)).unwrap(), vec![0xd3, 255, 255, 255, 255, 255, 255, 255, 255]);
    assert_eq!(
        encode(&Value::Float(1.5f64.to_bits())).unwrap(),
        vec![0xcb, 0x3f, 0xf8, 0, 0, 0, 0, 0, 0]
    );
    assert_eq!(encode(&Value::Text(b"a".to_vec())).unwrap(), vec![0xdb, 0, 0, 0, 1, b'a']);
    assert_eq!(encode(&Value::Binary(vec![])).unwrap(), vec![0xc6, 0, 0, 0, 0]);
}

#[test]
fn exact_mapping_bytes() {
    let v = Value::Mapping(vec![(b"a".to_vec(), Value::Int(1))]);
    assert_eq!(
        encode(&v).unwrap(),
        vec![0xdf, 0, 0, 0, 1, 0xdb, 0, 0, 0, 1, b'a', 0xd3, 0, 0, 0, 0, 0, 0, 0, 1]
    );
    let l = Value::List(vec![Value::Null, Value::Bool(true)]);
    assert_eq!(encode(&l).unwrap(), vec![0xdd, 0, 0, 0, 2, 0xc0, 0xc3]);
}

#[test]
fn scalars_round_trip() {
    for v in [
        Value::Null,
        Value::Bool(true),
        Value::Bool(false),
        Value::Int(0),
        Value::Int(i64::MIN),
        Value::Int(i64::MAX),
        Value::Float(0.0f64.to_bits()),
        Value::Float((-0.0f64).to_bits()),
        Value::Float(f64::NAN.to_bits()),
        Value::Float(f64::INFINITY.to_bits()),
        Value::Float(f64::NEG_INFINITY.to_bits()),
        Value::Text(Vec::new()),
        Value::Text("日本語".as_bytes().to_vec()),
        Value::Binary(vec![0; 300]),
    ] {
        round_trip(&v);
    }
}

#[test]
fn negative_zero_keeps_its_sign() {
    let bytes = encode(&Value::Float((-0.0f64).to_bits())).unwrap();
    match decode(&bytes) {
        Some(Value::Float(b)) => assert_eq!(b, (-0.0f64).to_bits()),
        _ => panic!("not a float"),
    }
}

#[test]
fn deeply_nested_round_trip() {
    round_trip(&nested(6));
    round_trip(&Value::List(vec![]));
    round_trip(&Value::Mapping(vec![]));
}

#[test]
fn malformed_input_is_refused() {
    assert!(decode(&[]).is_none());
    assert!(decode(&[0x00]).is_none());
    // Trailing bytes after a complete value.
    assert!(decode(&[0xc0, 0xc0]).is_none());
    // Truncated integer.
    assert!(decode(&[0xd3, 0, 0]).is_none());
    // Text longer than what follows.
    assert!(decode(&[0xdb, 0, 0, 0, 5, b'a']).is_none());
    // A list announcing more items than it has.
    assert!(decode(&[0xdd, 0, 0, 0, 2, 0xc0]).is_none());
    // A mapping key that is not text.
    assert!(decode(&[0xdf, 0, 0, 0, 1, 0xc0, 0xc0]).is_none());
}

#[test]
fn duplicate_keys_are_refused() {
    let dup = Value::Mapping(vec![
        (b"k".to_vec(), Value::Int(1)),
        (b"k".to_vec(), Value::Int(2)),
    ]);
    assert!(encode(&dup).is_none());
    let nested_dup = Value::List(vec![Value::Null, dup]);
    assert!(encode(&nested_dup).is_none());
    let bytes = vec![
        0xdf, 0, 0, 0, 2, 0xdb, 0, 0, 0, 1, b'k', 0xc0, 0xdb, 0, 0, 0, 1, b'k', 0xc3,
    ];
    assert!(decode(&bytes).is_none());
    let distinct = vec![
        0xdf, 0, 0, 0, 2, 0xdb, 0, 0, 0, 1, b'k', 0xc0, 0xdb, 0, 0, 0, 1, b'j', 0xc3,
    ];
    assert!(decode(&distinct).is_some());
}

#[test]
fn decoded_bytes_reencode_exactly() {
    let bytes = vec![
        0xdd, 0, 0, 0, 3, 0xc3, 0xdb, 0, 0, 0, 2, 0xc3, 0xa9, 0xdf, 0, 0, 0, 1, 0xdb, 0, 0, 0, 1,
        b'x', 0xc6, 0, 0, 0, 1, 7,
    ];
    let v = decode(&bytes).unwrap();
    assert_eq!(encode(&v).unwrap(), bytes);
}

use learn::pb::codec::{decode_value, encode_value};
use learn::value::Value as Kind;
use learn::{KvError, Value};

fn v(k: Kind) -> Value {
    Value { value: Some(k) }
}

#[test]
fn encodes_each_kind_as_protobuf() {
    assert_eq!(encode_value(&Value::default()), Vec::<u8>::new());
    assert_eq!(encode_value(&"hi".into()), vec![10, 2, b'h', b'i']);
    assert_eq!(encode_value(&v(Kind::Binary(vec![1, 2]))), vec![18, 2, 1, 2]);
    assert_eq!(encode_value(&300i64.into()), vec![24, 0xAC, 0x02]);
    assert_eq!(
        encode_value(&(-1i64).into()),
        vec![24, 0xFF, 0xFF, 0xFF, 0xFF, 0xFF, 0xFF, 0xFF, 0xFF, 0xFF, 0x01]
    );
    assert_eq!(encode_value(&true.into()), vec![40, 1]);
    assert_eq!(
        encode_value(&v(Kind::Float(1.0f64.to_bits()))),
        vec![33, 0, 0, 0, 0, 0, 0, 0xF0, 0x3F]
    );
    assert_eq!(encode_value(&"é".into()), vec![10, 2, 0xC3, 0xA9]);
}

#[test]
fn decodes_what_it_encodes() {
    let values = vec![
        Value::default(),
        "".into(),
        "héllo".into(),
        v(Kind::Binary(vec![0; 200])),
        0i64.into(),
        i64::MIN.into(),
        i64::MAX.into(),
        false.into(),
        v(Kind::Float(2.5f64.to_bits())),
    ];
    for x in values {
        assert_eq!(decode_value(&encode_value(&x)).unwrap(), x);
    }
}

#[test]
fn refuses_bytes_that_hold_no_value() {
    let bad: Vec<Vec<u8>> = vec![
        vec![7],
        vec![10, 3, b'a'],
        vec![10, 1, 0xFF],
        vec![24, 0x80],
        vec![33, 1, 2],
        vec![24, 1, 1],
        vec![24, 0x80, 0x80, 0x80, 0x80, 0x80, 0x80, 0x80, 0x80, 0x80, 0x02],
        vec![24, 0x80, 0x80, 0x80, 0x80, 0x80, 0x80, 0x80, 0x80, 0x80, 0x80, 0x00],
        vec![26, 0],
        vec![40, 1, 0x0F],
        vec![60],
        vec![58, 5, 1],
    ];
    for b in bad {
        assert!(matches!(decode_value(&b), Err(KvError::DecodeError(_))), "{:?}", b);
    }
}

#[test]
fn reads_what_a_protobuf_reader_accepts() {
    // A bool is true for any nonzero varint.
    assert_eq!(decode_value(&[40, 2]).unwrap(), true.into());
    // A varint may be written longer than it needs to be.
    assert_eq!(decode_value(&[24, 0x80, 0x00]).unwrap(), 0i64.into());
    // A tenth varint byte of 1 carries the top bit.
    assert_eq!(
        decode_value(&[24, 0xFF, 0xFF, 0xFF, 0xFF, 0xFF, 0xFF, 0xFF, 0xFF, 0xFF, 0x01]).unwrap(),
        (-1i64).into()
    );
    // Fields it does not know are skipped: a varint, a fixed 64-bit and 32-bit
    // field, a length-delimited field and a group.
    assert_eq!(decode_value(&[48, 5, 24, 7]).unwrap(), 7i64.into());
    assert_eq!(decode_value(&[49, 1, 2, 3, 4, 5, 6, 7, 8]).unwrap(), Value::default());
    assert_eq!(decode_value(&[53, 1, 2, 3, 4, 40, 1]).unwrap(), true.into());
    assert_eq!(decode_value(&[58, 2, 0xFF, 0xFF, 10, 1, b'a']).unwrap(), "a".into());
    assert_eq!(decode_value(&[51, 8, 1, 52, 40, 0]).unwrap(), false.into());
    // The last field of the oneof wins.
    assert_eq!(decode_value(&[24, 1, 24, 2]).unwrap(), 2i64.into());
    assert_eq!(decode_value(&[24, 1, 10, 1, b'x']).unwrap(), "x".into());
}

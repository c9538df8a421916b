use buffa_reflect::handles::Kind;
use buffa_reflect::value::{MapKey, UnknownField, UnknownFieldData, UnknownFieldSet, Value};
use buffa_reflect::wire::{decode_varint, encode_varint, unzigzag32, zigzag32, zigzag64};

#[test]
fn varint_roundtrip_small_and_large() {
    for v in [0u64, 1, 127, 128, 300, u64::MAX] {
        let mut out = Vec::new();
        encode_varint(v, &mut out);
        let (back, end) = decode_varint(&out, 0).unwrap();
        assert_eq!(back, v);
        assert_eq!(end, out.len());
    }
}

#[test]
fn varint_known_bytes() {
    let mut out = Vec::new();
    encode_varint(300, &mut out);
    assert_eq!(out, vec![0xac, 0x02]);
}

#[test]
fn zigzag_values() {
    assert_eq!(zigzag32(0), 0);
    assert_eq!(zigzag32(-1), 1);
    assert_eq!(zigzag32(1), 2);
    assert_eq!(zigzag32(-2), 3);
    assert_eq!(unzigzag32(3), -2);
    assert_eq!(zigzag64(i64::MIN), u64::MAX);
}

#[test]
fn test_unknown_field_set_should_encode_in_arrival_order() {
    let set = UnknownFieldSet {
        items: vec![
            UnknownField { number: 3, data: UnknownFieldData::Varint(5) },
            UnknownField { number: 3, data: UnknownFieldData::LengthDelimited(vec![0x61, 0x62]) },
        ],
    };
    let mut buf = vec![0xffu8];
    set.encode(3, &mut buf);
    assert_eq!(buf, vec![0xff, 0x18, 0x05, 0x1a, 0x02, 0x61, 0x62]);
    assert_eq!(set.encoded_len(3), 6);
}

#[test]
fn test_default_keys_and_values_should_be_zero() {
    assert!(matches!(MapKey::default_value(&Kind::Int32), MapKey::I32(0)));
    assert!(matches!(MapKey::default_value(&Kind::Fixed64), MapKey::U64(0)));
    assert!(matches!(MapKey::default_value(&Kind::String), MapKey::String(ref s) if s.is_empty()));
    assert!(matches!(MapKey::default_value(&Kind::Bool), MapKey::Bool(false)));
    assert!(matches!(Value::default_value(&Kind::Sint64), Value::I64(0)));
    assert!(matches!(Value::default_value(&Kind::Bytes), Value::Bytes(ref b) if b.is_empty()));
    assert!(matches!(Value::default_value(&Kind::Double), Value::F64(0)));
}

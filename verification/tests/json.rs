use buffa_reflect::descriptor::{
    DescriptorProto, EnumDescriptorProto, EnumValueDescriptorProto, FieldDescriptorProto,
    FileDescriptorProto, FileDescriptorSet, Label, MessageOptions, Type,
};
use buffa_reflect::handles::MessageDescriptor;
use buffa_reflect::json::{duration_string, Json, JsonNumber, NumberValue};
use buffa_reflect::message::DynamicMessage;
use buffa_reflect::options::{DeserializeOptions, SerializeOptions};
use buffa_reflect::pool::DescriptorPool;
use buffa_reflect::textparse::FloatLiterals;
use buffa_reflect::value::{MapKey, Value};

fn enum_value(name: &str, number: i32) -> EnumValueDescriptorProto {
    EnumValueDescriptorProto { name: Some(name.into()), number: Some(number) }
}

fn field(name: &str, number: i32, ty: Type, label: Label, type_ref: Option<&str>) -> FieldDescriptorProto {
    FieldDescriptorProto {
        name: Some(name.into()),
        number: Some(number),
        label: Some(label),
        field_type: Some(ty),
        type_path: type_ref.map(str::to_string),
        default_value: None,
        oneof_index: None,
        json_name: None,
        options: None,
        proto3_optional: None,
    }
}

fn build_pool() -> DescriptorPool {
    let role = EnumDescriptorProto {
        name: Some("Role".into()),
        value: vec![enum_value("ROLE_UNSPECIFIED", 0), enum_value("ROLE_ADMIN", 1), enum_value("ROLE_USER", 2)],
    };
    let tags_entry = DescriptorProto {
        name: Some("TagsEntry".into()),
        field: vec![
            field("key", 1, Type::TypeString, Label::LabelOptional, None),
            field("value", 2, Type::TypeString, Label::LabelOptional, None),
        ],
        nested_type: vec![],
        enum_type: vec![],
        oneof_decl: vec![],
        options: Some(MessageOptions { map_entry: Some(true) }),
    };
    let mut tags_field = field("tags", 9, Type::TypeMessage, Label::LabelRepeated, Some(".acme.User.TagsEntry"));
    tags_field.json_name = Some("tags".into());
    let user = DescriptorProto {
        name: Some("User".into()),
        field: vec![
            field("user_id", 1, Type::TypeString, Label::LabelOptional, None),
            field("count", 2, Type::TypeInt32, Label::LabelOptional, None),
            field("balance", 3, Type::TypeInt64, Label::LabelOptional, None),
            field("active", 4, Type::TypeBool, Label::LabelOptional, None),
            field("blob", 5, Type::TypeBytes, Label::LabelOptional, None),
            field("role", 6, Type::TypeEnum, Label::LabelOptional, Some(".acme.Role")),
            field("scores", 7, Type::TypeInt32, Label::LabelRepeated, None),
            field("ratio", 8, Type::TypeDouble, Label::LabelOptional, None),
            tags_field,
        ],
        nested_type: vec![tags_entry],
        enum_type: vec![],
        oneof_decl: vec![],
        options: None,
    };
    let file = FileDescriptorProto {
        name: Some("acme/user.proto".into()),
        package: Some("acme".into()),
        message_type: vec![user],
        enum_type: vec![role],
        service: vec![],
        syntax: Some("proto3".into()),
    };
    DescriptorPool::from_file_descriptor_set(FileDescriptorSet { file: vec![file] }).ok().unwrap()
}

fn user_descriptor() -> MessageDescriptor {
    build_pool().get_message_by_name("acme.User").unwrap()
}

fn to_serde(j: &Json) -> serde_json::Value {
    match j {
        Json::Null => serde_json::Value::Null,
        Json::Bool(b) => serde_json::Value::Bool(*b),
        Json::Uint(v) => serde_json::Value::from(*v),
        Json::Int(v) => serde_json::Value::from(*v),
        Json::Float32(b) => serde_json::Value::from(f32::from_bits(*b) as f64),
        Json::Float64(b) => serde_json::Value::from(f64::from_bits(*b)),
        Json::Str(s) => serde_json::Value::String(s.clone()),
        Json::Array(items) => serde_json::Value::Array(items.iter().map(to_serde).collect()),
        Json::Object(es) => {
            let mut m = serde_json::Map::new();
            for (k, v) in es {
                m.insert(k.clone(), to_serde(v));
            }
            serde_json::Value::Object(m)
        },
        Json::Number(n) => match n.value {
            NumberValue::Uint(v) => serde_json::Value::from(v),
            NumberValue::Int(v) => serde_json::Value::from(v),
            NumberValue::Float(b) => serde_json::Value::from(f64::from_bits(b)),
        },
    }
}

fn number(v: f64, value: NumberValue) -> Json {
    Json::Number(JsonNumber {
        value,
        as_f32: (v as f32).to_bits(),
        as_f64: v.to_bits(),
        as_i32: v as i32,
        as_i64: v as i64,
        as_u32: v as u32,
        as_u64: v as u64,
    })
}

fn from_serde(v: &serde_json::Value) -> Json {
    match v {
        serde_json::Value::Null => Json::Null,
        serde_json::Value::Bool(b) => Json::Bool(*b),
        serde_json::Value::Number(n) => {
            if let Some(u) = n.as_u64() {
                number(u as f64, NumberValue::Uint(u))
            } else if let Some(i) = n.as_i64() {
                number(i as f64, NumberValue::Int(i))
            } else {
                let f = n.as_f64().unwrap();
                number(f, NumberValue::Float(f.to_bits()))
            }
        },
        serde_json::Value::String(s) => Json::Str(s.clone()),
        serde_json::Value::Array(items) => Json::Array(items.iter().map(from_serde).collect()),
        serde_json::Value::Object(m) => Json::Object(m.iter().map(|(k, v)| (k.clone(), from_serde(v))).collect()),
    }
}

fn to_json_text(m: &DynamicMessage) -> String {
    serde_json::to_string(&to_serde(&m.serialize().ok().unwrap())).unwrap()
}

fn parse_json(d: MessageDescriptor, text: &str, o: &DeserializeOptions) -> Result<DynamicMessage, String> {
    let v: serde_json::Value = serde_json::from_str(text).unwrap();
    DynamicMessage::deserialize_with_options(d, &from_serde(&v), o, &FloatLiterals::new())
}

#[test]
fn test_should_serialize_with_lower_camel_case_keys() {
    let mut m = DynamicMessage::new(user_descriptor());
    m.set_field_by_name("user_id", Value::String("alice".into()));
    m.set_field_by_name("count", Value::I32(7));
    let s = to_json_text(&m);
    assert!(s.contains(r#""userId":"alice""#));
    assert!(s.contains(r#""count":7"#));
}

#[test]
fn test_should_stringify_int64_by_default() {
    let mut m = DynamicMessage::new(user_descriptor());
    m.set_field_by_name("balance", Value::I64(1_000_000));
    assert!(to_json_text(&m).contains(r#""balance":"1000000""#));
}

#[test]
fn test_should_emit_int64_as_number_when_disabled() {
    let mut m = DynamicMessage::new(user_descriptor());
    m.set_field_by_name("balance", Value::I64(42));
    let opts = SerializeOptions::new().stringify_64_bit_integers(false);
    let json = serde_json::to_string(&to_serde(&m.serialize_with_options(&opts).ok().unwrap())).unwrap();
    assert!(json.contains(r#""balance":42"#));
}

#[test]
fn test_should_emit_bytes_as_base64() {
    let mut m = DynamicMessage::new(user_descriptor());
    m.set_field_by_name("blob", Value::Bytes(b"hello".to_vec()));
    assert!(to_json_text(&m).contains(r#""blob":"aGVsbG8=""#));
}

#[test]
fn json_test_should_emit_enum_as_name() {
    let mut m = DynamicMessage::new(user_descriptor());
    m.set_field_by_name("role", Value::EnumNumber(2));
    assert!(to_json_text(&m).contains(r#""role":"ROLE_USER""#));
}

#[test]
fn test_should_emit_enum_as_number_when_requested() {
    let mut m = DynamicMessage::new(user_descriptor());
    m.set_field_by_name("role", Value::EnumNumber(2));
    let opts = SerializeOptions::new().use_enum_numbers(true);
    let json = serde_json::to_string(&to_serde(&m.serialize_with_options(&opts).ok().unwrap())).unwrap();
    assert!(json.contains(r#""role":2"#));
}

#[test]
fn test_should_skip_default_fields_by_default() {
    let m = DynamicMessage::new(user_descriptor());
    assert_eq!(to_json_text(&m), "{}");
}

#[test]
fn test_should_round_trip_through_json() {
    let d = user_descriptor();
    let mut original = DynamicMessage::new(d.clone_handle());
    original.set_field_by_name("user_id", Value::String("alice".into()));
    original.set_field_by_name("count", Value::I32(7));
    original.set_field_by_name("balance", Value::I64(100));
    original.set_field_by_name("active", Value::Bool(true));
    original.set_field_by_name("blob", Value::Bytes(b"hi".to_vec()));
    original.set_field_by_name("role", Value::EnumNumber(1));
    original.set_field_by_name("scores", Value::List(vec![Value::I32(1), Value::I32(2), Value::I32(3)]));
    original.set_field_by_name("ratio", Value::F64(1.5f64.to_bits()));
    original.set_field_by_name("tags", Value::Mapping(vec![(MapKey::String("a".into()), Value::String("1".into()))]));
    let json = to_json_text(&original);
    let restored = parse_json(d, &json, &DeserializeOptions::new()).ok().unwrap();
    assert!(same_message(&original, &restored));
}

#[test]
fn test_should_accept_proto_field_name_on_deserialize() {
    let restored = parse_json(user_descriptor(), r#"{"user_id": "alice"}"#, &DeserializeOptions::new()).ok().unwrap();
    assert!(matches!(restored.get_field_by_name("user_id").unwrap(), Value::String(ref s) if s == "alice"));
}

#[test]
fn test_should_emit_special_floats_as_strings() {
    let mut m = DynamicMessage::new(user_descriptor());
    m.set_field_by_name("ratio", Value::F64(f64::NAN.to_bits()));
    assert!(to_json_text(&m).contains(r#""ratio":"NaN""#));
}

#[test]
fn test_should_reject_unknown_field_when_deny_set() {
    let opts = DeserializeOptions::new().deny_unknown_fields(true);
    let err = parse_json(user_descriptor(), r#"{"unknownField": 1}"#, &opts).err().unwrap();
    assert!(err.contains("unknown field"));
}

#[test]
fn test_should_silently_drop_unknown_field_by_default() {
    let m = parse_json(user_descriptor(), r#"{"unknownField": 1, "userId": "alice"}"#, &DeserializeOptions::new()).ok().unwrap();
    assert!(matches!(m.get_field_by_name("user_id").unwrap(), Value::String(ref s) if s == "alice"));
}

#[test]
fn int64_strings_and_numbers_both_parse() {
    let m = parse_json(user_descriptor(), r#"{"balance": "-9223372036854775808", "count": 5}"#, &DeserializeOptions::new()).ok().unwrap();
    assert!(matches!(m.get_field_by_name("balance").unwrap(), Value::I64(i64::MIN)));
    assert!(matches!(m.get_field_by_name("count").unwrap(), Value::I32(5)));
    let e = parse_json(user_descriptor(), r#"{"count": 3000000000}"#, &DeserializeOptions::new()).err().unwrap();
    assert!(e.contains("out of range"));
}

#[test]
fn durations_render_with_trimmed_fractions() {
    assert_eq!(duration_string(1, 500_000_000), "1.5s");
    assert_eq!(duration_string(-3, 0), "-3s");
    assert_eq!(duration_string(0, -1000), "-0.000001s");
    assert_eq!(duration_string(2, 1), "2.000000001s");
}

#[test]
fn base64_pads_short_tails() {
    for (input, expected) in [(&b""[..], ""), (&b"a"[..], "YQ=="), (&b"ab"[..], "YWI="), (&b"abc"[..], "YWJj")] {
        let mut m = DynamicMessage::new(user_descriptor());
        m.set_field_by_name("blob", Value::Bytes(input.to_vec()));
        let s = to_json_text(&m);
        if input.is_empty() {
            assert_eq!(s, "{}");
        } else {
            assert!(s.contains(&format!(r#""blob":"{expected}""#)));
        }
    }
}

#[test]
fn map_keys_serialize_in_key_order() {
    let mut m = DynamicMessage::new(user_descriptor());
    m.set_field_by_name(
        "tags",
        Value::Mapping(vec![
            (MapKey::String("b".into()), Value::String("2".into())),
            (MapKey::String("a".into()), Value::String("1".into())),
        ]),
    );
    let j = m.serialize().ok().unwrap();
    match j {
        Json::Object(es) => match &es[0].1 {
            Json::Object(tags) => {
                assert_eq!(tags[0].0, "a");
                assert_eq!(tags[1].0, "b");
            },
            _ => panic!("tags not an object"),
        },
        _ => panic!("not an object"),
    }
}

fn same_key(a: &MapKey, b: &MapKey) -> bool {
    match (a, b) {
        (MapKey::Bool(x), MapKey::Bool(y)) => x == y,
        (MapKey::I32(x), MapKey::I32(y)) => x == y,
        (MapKey::I64(x), MapKey::I64(y)) => x == y,
        (MapKey::U32(x), MapKey::U32(y)) => x == y,
        (MapKey::U64(x), MapKey::U64(y)) => x == y,
        (MapKey::String(x), MapKey::String(y)) => x == y,
        _ => false,
    }
}

fn same_value(a: &Value, b: &Value) -> bool {
    match (a, b) {
        (Value::Bool(x), Value::Bool(y)) => x == y,
        (Value::I32(x), Value::I32(y)) => x == y,
        (Value::I64(x), Value::I64(y)) => x == y,
        (Value::U32(x), Value::U32(y)) => x == y,
        (Value::U64(x), Value::U64(y)) => x == y,
        (Value::F32(x), Value::F32(y)) => x == y,
        (Value::F64(x), Value::F64(y)) => x == y,
        (Value::String(x), Value::String(y)) => x == y,
        (Value::Bytes(x), Value::Bytes(y)) => x == y,
        (Value::EnumNumber(x), Value::EnumNumber(y)) => x == y,
        (Value::Message(x), Value::Message(y)) => same_message(x, y),
        (Value::List(x), Value::List(y)) => {
            x.len() == y.len() && x.iter().zip(y.iter()).all(|(p, q)| same_value(p, q))
        },
        (Value::Mapping(x), Value::Mapping(y)) => {
            x.len() == y.len()
                && x.iter().all(|(k, v)| y.iter().any(|(k2, v2)| same_key(k, k2) && same_value(v, v2)))
        },
        _ => false,
    }
}

/// Same type, the same known fields (by number) holding equal values, map
/// entries compared regardless of order, the same unknown field numbers,
/// and the same encoding.
fn same_message(a: &DynamicMessage, b: &DynamicMessage) -> bool {
    let fa = a.fields();
    let fb = b.fields();
    let ua: Vec<u32> = a.unknown_fields().iter().map(|(n, _)| *n).collect();
    let ub: Vec<u32> = b.unknown_fields().iter().map(|(n, _)| *n).collect();
    a.descriptor().full_name() == b.descriptor().full_name()
        && fa.len() == fb.len()
        && fa
            .iter()
            .zip(fb.iter())
            .all(|((f1, v1), (f2, v2))| f1.number() == f2.number() && same_value(v1, v2))
        && ua == ub
        && a.encode_to_vec() == b.encode_to_vec()
}

#[test]
fn default_serialize_options_match_new() {
    let mut m = DynamicMessage::new(user_descriptor());
    m.set_field_by_name("balance", Value::I64(5));
    let a = serde_json::to_string(&to_serde(&m.serialize_with_options(&SerializeOptions::default()).ok().unwrap())).unwrap();
    let b = serde_json::to_string(&to_serde(&m.serialize_with_options(&SerializeOptions::new()).ok().unwrap())).unwrap();
    assert_eq!(a, b);
    assert!(a.contains(r#""balance":"5""#));
}

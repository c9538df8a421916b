use buffa_reflect::descriptor::{
    DescriptorProto, EnumDescriptorProto, EnumValueDescriptorProto, FieldDescriptorProto,
    FileDescriptorProto, FileDescriptorSet, Label, MessageOptions, OneofDescriptorProto, Type,
};
use buffa_reflect::error::{DecodeError, DescriptorError};
use buffa_reflect::handles::MessageDescriptor;
use buffa_reflect::message::DynamicMessage;
use buffa_reflect::options::DecodeOptions;
use buffa_reflect::pool::DescriptorPool;
use buffa_reflect::value::{MapKey, SetFieldError, Value};
use buffa_reflect::wire::{encode_tag, encode_varint, WireType};

fn enum_value(name: &str, number: i32) -> EnumValueDescriptorProto {
    EnumValueDescriptorProto { name: Some(name.to_string()), number: Some(number) }
}

fn field(name: &str, number: i32, ty: Type, label: Label, type_ref: Option<&str>) -> FieldDescriptorProto {
    FieldDescriptorProto {
        name: Some(name.to_string()),
        number: Some(number),
        label: Some(label),
        field_type: Some(ty),
        type_path: type_ref.map(str::to_string),
        default_value: None,
        oneof_index: None,
        json_name: None,
        options: None,
        proto3_optional: None,
    }
}

fn message(name: &str, fields: Vec<FieldDescriptorProto>) -> DescriptorProto {
    DescriptorProto {
        name: Some(name.to_string()),
        field: fields,
        nested_type: vec![],
        enum_type: vec![],
        oneof_decl: vec![],
        options: None,
    }
}

fn file(name: &str, package: &str, syntax: &str, messages: Vec<DescriptorProto>, enums: Vec<EnumDescriptorProto>) -> FileDescriptorProto {
    FileDescriptorProto {
        name: Some(name.to_string()),
        package: Some(package.to_string()),
        message_type: messages,
        enum_type: enums,
        service: vec![],
        syntax: Some(syntax.to_string()),
    }
}

fn map_entry(name: &str, key: Type, value: Type, value_type_ref: Option<&str>) -> DescriptorProto {
    let mut m = message(
        name,
        vec![
            field("key", 1, key, Label::LabelOptional, None),
            field("value", 2, value, Label::LabelOptional, value_type_ref),
        ],
    );
    m.options = Some(MessageOptions { map_entry: Some(true) });
    m
}

fn build_user_file() -> FileDescriptorProto {
    let role = EnumDescriptorProto {
        name: Some("Role".to_string()),
        value: vec![enum_value("ROLE_UNSPECIFIED", 0), enum_value("ROLE_ADMIN", 1), enum_value("ROLE_USER", 2)],
    };
    let tags_entry = map_entry("TagsEntry", Type::TypeString, Type::TypeString, None);
    let mut tags_field = field("tags", 20, Type::TypeMessage, Label::LabelRepeated, Some(".acme.User.TagsEntry"));
    tags_field.json_name = Some("tags".into());
    let oneof = OneofDescriptorProto { name: Some("contact".to_string()) };
    let mut email = field("email", 30, Type::TypeString, Label::LabelOptional, None);
    email.oneof_index = Some(0);
    let mut phone = field("phone", 31, Type::TypeString, Label::LabelOptional, None);
    phone.oneof_index = Some(0);
    let address = message(
        "Address",
        vec![
            field("street", 1, Type::TypeString, Label::LabelOptional, None),
            field("city", 2, Type::TypeString, Label::LabelOptional, None),
        ],
    );
    let mut user = message(
        "User",
        vec![
            field("id", 1, Type::TypeString, Label::LabelOptional, None),
            field("count", 2, Type::TypeInt32, Label::LabelOptional, None),
            field("balance", 3, Type::TypeInt64, Label::LabelOptional, None),
            field("ratio", 4, Type::TypeDouble, Label::LabelOptional, None),
            field("active", 5, Type::TypeBool, Label::LabelOptional, None),
            field("blob", 6, Type::TypeBytes, Label::LabelOptional, None),
            field("role", 7, Type::TypeEnum, Label::LabelOptional, Some(".acme.Role")),
            field("address", 8, Type::TypeMessage, Label::LabelOptional, Some(".acme.User.Address")),
            field("scores", 10, Type::TypeInt32, Label::LabelRepeated, None),
            tags_field,
            email,
            phone,
        ],
    );
    user.nested_type = vec![address, tags_entry];
    user.oneof_decl = vec![oneof];
    file("acme/user.proto", "acme", "proto3", vec![user], vec![role])
}

fn user_pool() -> DescriptorPool {
    DescriptorPool::from_file_descriptor_set(FileDescriptorSet { file: vec![build_user_file()] })
        .ok()
        .expect("pool builds")
}

fn user_descriptor() -> MessageDescriptor {
    user_pool().get_message_by_name("acme.User").expect("message exists")
}

fn as_i32(v: &Value) -> Option<i32> {
    match v {
        Value::I32(x) => Some(*x),
        _ => None,
    }
}

fn as_str(v: &Value) -> Option<&str> {
    match v {
        Value::String(s) => Some(s.as_str()),
        _ => None,
    }
}

fn same_key(a: &MapKey, b: &MapKey) -> bool {
    match (a, b) {
        (MapKey::Bool(x), MapKey::Bool(y)) => x == y,
        (MapKey::I32(x), MapKey::I32(y)) => x == y,
        (MapKey::I64(x), MapKey::I64(y)) => x == y,
        (MapKey::U32(x), MapKey::U32(y)) => x == y,
        (MapKey::U64(x), MapKey::U64(y)) => x == y,
        (MapKey::String(x), MapKey::String(y)) => x == y,
        _ => false,
    }
}

fn same_value(a: &Value, b: &Value) -> bool {
    match (a, b) {
        (Value::Bool(x), Value::Bool(y)) => x == y,
        (Value::I32(x), Value::I32(y)) => x == y,
        (Value::I64(x), Value::I64(y)) => x == y,
        (Value::U32(x), Value::U32(y)) => x == y,
        (Value::U64(x), Value::U64(y)) => x == y,
        (Value::F32(x), Value::F32(y)) => x == y,
        (Value::F64(x), Value::F64(y)) => x == y,
        (Value::String(x), Value::String(y)) => x == y,
        (Value::Bytes(x), Value::Bytes(y)) => x == y,
        (Value::EnumNumber(x), Value::EnumNumber(y)) => x == y,
        (Value::Message(x), Value::Message(y)) => same_message(x, y),
        (Value::List(x), Value::List(y)) => {
            x.len() == y.len() && x.iter().zip(y.iter()).all(|(p, q)| same_value(p, q))
        },
        (Value::Mapping(x), Value::Mapping(y)) => {
            x.len() == y.len()
                && x.iter().all(|(k, v)| y.iter().any(|(k2, v2)| same_key(k, k2) && same_value(v, v2)))
        },
        _ => false,
    }
}

/// Same type, the same known fields (by number) holding equal values, map
/// entries compared regardless of order, the same unknown field numbers,
/// and the same encoding.
fn same_message(a: &DynamicMessage, b: &DynamicMessage) -> bool {
    let fa = a.fields();
    let fb = b.fields();
    let ua: Vec<u32> = a.unknown_fields().iter().map(|(n, _)| *n).collect();
    let ub: Vec<u32> = b.unknown_fields().iter().map(|(n, _)| *n).collect();
    a.descriptor().full_name() == b.descriptor().full_name()
        && fa.len() == fb.len()
        && fa
            .iter()
            .zip(fb.iter())
            .all(|((f1, v1), (f2, v2))| f1.number() == f2.number() && same_value(v1, v2))
        && ua == ub
        && a.encode_to_vec() == b.encode_to_vec()
}

#[test]
fn test_should_construct_empty_dynamic_message() {
    let d = user_descriptor();
    let m = DynamicMessage::new(d.clone_handle());
    assert!(m.is_empty());
    assert_eq!(m.descriptor().full_name(), d.full_name());
}

#[test]
fn test_should_round_trip_set_and_get_for_every_scalar_kind() {
    let d = user_descriptor();
    let mut m = DynamicMessage::new(d.clone_handle());
    m.set_field_by_name("id", Value::String("alice".into()));
    m.set_field_by_name("count", Value::I32(7));
    m.set_field_by_name("balance", Value::I64(1_000_000));
    m.set_field_by_name("ratio", Value::F64(1.25f64.to_bits()));
    m.set_field_by_name("active", Value::Bool(true));
    m.set_field_by_name("blob", Value::Bytes(vec![1, 2]));
    m.set_field_by_name("role", Value::EnumNumber(2));

    assert_eq!(as_str(&m.get_field_by_name("id").unwrap()), Some("alice"));
    assert_eq!(as_i32(&m.get_field_by_name("count").unwrap()), Some(7));
    assert!(matches!(m.get_field_by_name("balance").unwrap(), Value::I64(1_000_000)));
    match m.get_field_by_name("ratio").unwrap() {
        Value::F64(bits) => assert_eq!(f64::from_bits(bits), 1.25),
        _ => panic!("not a double"),
    }
    assert!(matches!(m.get_field_by_name("active").unwrap(), Value::Bool(true)));
    match m.get_field_by_name("blob").unwrap() {
        Value::Bytes(b) => assert_eq!(b, vec![1u8, 2]),
        _ => panic!("not bytes"),
    }
    assert!(matches!(m.get_field_by_name("role").unwrap(), Value::EnumNumber(2)));
}

#[test]
fn test_should_reject_string_into_int_via_try_set() {
    let d = user_descriptor();
    let mut m = DynamicMessage::new(d.clone_handle());
    let count = d.get_field_by_name("count").unwrap();
    let err = m.try_set_field(&count, Value::String("nope".into())).err().unwrap();
    assert!(matches!(err, SetFieldError::InvalidType { .. }));
    assert_eq!(err.message(), "invalid value for field `acme.User.count`");
}

#[test]
fn test_should_synthesize_default_when_field_unset() {
    let d = user_descriptor();
    let m = DynamicMessage::new(d.clone_handle());
    assert!(!m.has_field_by_name("count"));
    let v = m.get_field_by_name("count").unwrap();
    assert_eq!(as_i32(&v), Some(0));
}

#[test]
fn test_oneof_should_clear_sibling_when_other_member_set() {
    let d = user_descriptor();
    let mut m = DynamicMessage::new(d.clone_handle());
    m.set_field_by_name("email", Value::String("alice@example.com".into()));
    assert!(m.has_field_by_name("email"));
    assert!(!m.has_field_by_name("phone"));
    m.set_field_by_name("phone", Value::String("+1-555-0100".into()));
    assert!(!m.has_field_by_name("email"));
    assert!(m.has_field_by_name("phone"));
    m.clear_field_by_name("phone");
    assert!(!m.has_field_by_name("phone"));
}

#[test]
fn test_repeated_field_should_append_via_get_field_mut() {
    let d = user_descriptor();
    let mut m = DynamicMessage::new(d.clone_handle());
    let scores = d.get_field_by_name("scores").unwrap();
    let v = m.get_field_mut(&scores);
    if let Value::List(l) = v {
        l.push(Value::I32(1));
        l.push(Value::I32(2));
        l.push(Value::I32(3));
    }
    let v = m.get_field_by_name("scores").unwrap();
    assert_eq!(
        v.as_list().unwrap().iter().map(|x| as_i32(x).unwrap()).collect::<Vec<_>>(),
        vec![1, 2, 3]
    );
}

#[test]
fn test_map_field_should_round_trip_string_to_string() {
    let d = user_descriptor();
    let mut m = DynamicMessage::new(d.clone_handle());
    let tags = d.get_field_by_name("tags").unwrap();
    let v = m.get_field_mut(&tags);
    if let Value::Mapping(map) = v {
        map.push((MapKey::String("a".into()), Value::String("1".into())));
        map.push((MapKey::String("b".into()), Value::String("2".into())));
    }
    let v = m.get_field_by_name("tags").unwrap();
    let map = v.as_map().unwrap();
    assert_eq!(map.len(), 2);
    let a = map.iter().find(|(k, _)| matches!(k, MapKey::String(s) if s == "a")).unwrap();
    assert_eq!(a.1.as_str(), Some("1"));
}

#[test]
fn test_get_field_mut_should_clear_oneof_sibling_and_keep_stored_value() {
    let d = user_descriptor();
    let mut m = DynamicMessage::new(d.clone_handle());
    m.set_field_by_name("email", Value::String("alice@example.com".into()));
    m.set_field_by_name("count", Value::I32(4));
    // The handle sees the stored value and writes go back into the message.
    if let Some(Value::I32(c)) = m.get_field_by_name_mut("count") {
        assert_eq!(*c, 4);
        *c = 9;
    } else {
        panic!("count is declared");
    }
    assert_eq!(as_i32(&m.get_field_by_name("count").unwrap()), Some(9));
    // Taking a handle on the other oneof member stores its default and
    // clears the sibling.
    let phone = m.get_field_by_name_mut("phone").unwrap();
    assert_eq!(phone.as_str(), Some(""));
    assert!(m.has_field_by_name("phone"));
    assert!(!m.has_field_by_name("email"));
    assert!(m.get_field_by_name_mut("no_such_field").is_none());
    assert!(m.get_field_by_number_mut(9999).is_none());
}

#[test]
fn test_value_mut_accessors_should_reach_the_payload() {
    let mut v = Value::List(vec![Value::I32(1)]);
    v.as_list_mut().unwrap().push(Value::I32(2));
    assert_eq!(v.as_list().unwrap().len(), 2);
    assert!(v.as_map_mut().is_none());
    assert!(v.as_message_mut().is_none());
    let mut mv = Value::Mapping(Vec::new());
    mv.as_map_mut().unwrap().push((MapKey::I32(1), Value::Bool(true)));
    assert_eq!(mv.as_map().unwrap().len(), 1);
}

#[test]
fn test_should_round_trip_through_wire_for_every_scalar_kind() {
    let d = user_descriptor();
    let mut original = DynamicMessage::new(d.clone_handle());
    original.set_field_by_name("id", Value::String("alice".into()));
    original.set_field_by_name("count", Value::I32(7));
    original.set_field_by_name("balance", Value::I64(1_000_000));
    original.set_field_by_name("ratio", Value::F64(1.25f64.to_bits()));
    original.set_field_by_name("active", Value::Bool(true));
    original.set_field_by_name("blob", Value::Bytes(vec![0, 1, 2]));
    original.set_field_by_name("role", Value::EnumNumber(1));
    let bytes = original.encode_to_vec();
    let restored = DynamicMessage::decode(d, bytes.as_slice()).ok().unwrap();
    assert!(same_message(&original, &restored));
    assert_eq!(as_str(&restored.get_field_by_name("id").unwrap()), Some("alice"));
    assert!(matches!(restored.get_field_by_name("role").unwrap(), Value::EnumNumber(1)));
}

#[test]
fn test_should_round_trip_repeated_packed_scalar() {
    let d = user_descriptor();
    let mut m = DynamicMessage::new(d.clone_handle());
    m.set_field_by_name("scores", Value::List(vec![Value::I32(1), Value::I32(2), Value::I32(3)]));
    let bytes = m.encode_to_vec();
    // proto3 packs repeated scalars: tag 10 length-delimited, then 1, 2, 3.
    assert_eq!(bytes, vec![0x52, 3, 1, 2, 3]);
    let m2 = DynamicMessage::decode(d, bytes.as_slice()).ok().unwrap();
    assert!(same_message(&m, &m2));
}

#[test]
fn test_should_round_trip_map_field() {
    let d = user_descriptor();
    let mut m = DynamicMessage::new(d.clone_handle());
    m.set_field_by_name(
        "tags",
        Value::Mapping(vec![
            (MapKey::String("city".into()), Value::String("Bath".into())),
            (MapKey::String("region".into()), Value::String("Somerset".into())),
        ]),
    );
    let bytes = m.encode_to_vec();
    let m2 = DynamicMessage::decode(d, bytes.as_slice()).ok().unwrap();
    assert!(same_message(&m, &m2));
}

#[test]
fn test_should_round_trip_nested_message() {
    let pool = user_pool();
    let user_d = pool.get_message_by_name("acme.User").unwrap();
    let address_d = pool.get_message_by_name("acme.User.Address").unwrap();
    let mut address = DynamicMessage::new(address_d);
    address.set_field_by_name("street", Value::String("1 Royal Crescent".into()));
    address.set_field_by_name("city", Value::String("Bath".into()));
    let mut user = DynamicMessage::new(user_d.clone_handle());
    user.set_field_by_name("id", Value::String("alice".into()));
    user.set_field_by_name("address", Value::Message(address));
    let bytes = user.encode_to_vec();
    let restored = DynamicMessage::decode(user_d, bytes.as_slice()).ok().unwrap();
    assert!(same_message(&user, &restored));
    match restored.get_field_by_name("address").unwrap() {
        Value::Message(a) => assert_eq!(as_str(&a.get_field_by_name("city").unwrap()), Some("Bath")),
        _ => panic!("not a message"),
    }
}

#[test]
fn test_should_preserve_unknown_fields_round_trip() {
    let d = user_descriptor();
    let mut wire = Vec::new();
    encode_tag(1, WireType::LengthDelimited, &mut wire);
    encode_varint(5, &mut wire);
    wire.extend_from_slice(b"alice");
    encode_tag(100, WireType::Varint, &mut wire);
    encode_varint(42, &mut wire);
    let m = DynamicMessage::decode(d, wire.as_slice()).ok().unwrap();
    assert_eq!(m.unknown_fields().len(), 1);
    let bytes = m.encode_to_vec();
    assert_eq!(bytes, wire);
}

#[test]
fn dynamic_test_should_round_trip_oneof_member() {
    let d = user_descriptor();
    let mut m = DynamicMessage::new(d.clone_handle());
    m.set_field_by_name("phone", Value::String("+1-555-0100".into()));
    let bytes = m.encode_to_vec();
    let restored = DynamicMessage::decode(d, bytes.as_slice()).ok().unwrap();
    assert!(same_message(&m, &restored));
    assert!(restored.has_field_by_name("phone"));
    assert!(!restored.has_field_by_name("email"));
}

#[test]
fn test_recursion_limit_should_reject_deep_message() {
    let node = message("Node", vec![field("next", 1, Type::TypeMessage, Label::LabelOptional, Some(".cycles.Node"))]);
    let f = file("cycles.proto", "cycles", "proto2", vec![node], vec![]);
    let pool = DescriptorPool::from_file_descriptor_set(FileDescriptorSet { file: vec![f] }).ok().unwrap();
    let node_d = pool.get_message_by_name("cycles.Node").unwrap();
    let mut deepest: Vec<u8> = Vec::new();
    for _ in 0..200 {
        let mut frame = Vec::new();
        encode_tag(1, WireType::LengthDelimited, &mut frame);
        encode_varint(deepest.len() as u64, &mut frame);
        frame.extend_from_slice(&deepest);
        deepest = frame;
    }
    let r = DynamicMessage::decode_with_limits(node_d, deepest.as_slice(), usize::MAX, 50);
    assert!(matches!(r, Err(DecodeError::RecursionLimitExceeded)));
}

#[test]
fn test_unknown_enum_number_should_round_trip() {
    let d = user_descriptor();
    let mut m = DynamicMessage::new(d.clone_handle());
    m.set_field_by_name("role", Value::EnumNumber(999));
    let bytes = m.encode_to_vec();
    let restored = DynamicMessage::decode(d, bytes.as_slice()).ok().unwrap();
    assert!(matches!(restored.get_field_by_name("role").unwrap(), Value::EnumNumber(999)));
}

#[test]
fn test_send_sync_is_satisfied() {
    fn assert_send_sync<T: Send + Sync>() {}
    assert_send_sync::<DynamicMessage>();
    assert_send_sync::<Value>();
    assert_send_sync::<MapKey>();
    assert_send_sync::<SetFieldError>();
}

#[test]
fn test_proto2_default_value_should_be_eagerly_parsed() {
    let mut count = field("count", 1, Type::TypeInt32, Label::LabelOptional, None);
    count.default_value = Some("42".to_string());
    let f = file("foo.proto", "acme", "proto2", vec![message("Foo", vec![count])], vec![]);
    let pool = DescriptorPool::from_file_descriptor_set(FileDescriptorSet { file: vec![f] }).ok().unwrap();
    let foo = pool.get_message_by_name("acme.Foo").unwrap();
    let m = DynamicMessage::new(foo);
    assert_eq!(as_i32(&m.get_field_by_name("count").unwrap()), Some(42));
}

#[test]
fn test_invalid_default_value_should_surface_as_pool_error() {
    let mut bad = field("count", 1, Type::TypeInt32, Label::LabelOptional, None);
    bad.default_value = Some("not-a-number".into());
    let f = file("bad.proto", "acme", "proto2", vec![message("Foo", vec![bad])], vec![]);
    let err = DescriptorPool::from_file_descriptor_set(FileDescriptorSet { file: vec![f] }).err().unwrap();
    assert!(matches!(err, DescriptorError::InvalidDefaultValue { .. }));
}

#[test]
fn test_dynamic_transcode_to_dynamic_should_clone() {
    let d = user_descriptor();
    let mut m = DynamicMessage::new(d);
    m.set_field_by_name("id", Value::String("alice".into()));
    let m2 = m.duplicate();
    assert!(same_message(&m, &m2));
}

#[test]
fn set_then_clear_reads_default() {
    let d = user_descriptor();
    let mut m = DynamicMessage::new(d);
    m.set_field_by_name("count", Value::I32(5));
    assert_eq!(as_i32(&m.get_field_by_name("count").unwrap()), Some(5));
    m.clear_field_by_name("count");
    assert!(!m.has_field_by_name("count"));
    assert_eq!(as_i32(&m.get_field_by_name("count").unwrap()), Some(0));
    assert!(m.is_empty());
}

#[test]
fn setting_a_oneof_member_keeps_unrelated_fields() {
    let d = user_descriptor();
    let mut m = DynamicMessage::new(d);
    m.set_field_by_name("count", Value::I32(3));
    m.set_field_by_name("email", Value::String("a@b".into()));
    m.set_field_by_name("phone", Value::String("1".into()));
    assert_eq!(as_i32(&m.get_field_by_name("count").unwrap()), Some(3));
    assert!(!m.has_field_by_name("email"));
}

#[test]
fn decoding_a_truncated_varint_fails() {
    let d = user_descriptor();
    let r = DynamicMessage::decode(d, &[0x10, 0x80]);
    assert!(matches!(r, Err(DecodeError::UnexpectedEof)));
}

#[test]
fn decoding_a_wrong_wire_type_for_a_known_field_fails() {
    let d = user_descriptor();
    // Field 2 (int32) written as fixed32.
    let r = DynamicMessage::decode(d, &[0x15, 1, 0, 0, 0]);
    assert!(matches!(r, Err(DecodeError::InvalidWireType(5))));
}

#[test]
fn negative_int32_encodes_as_ten_byte_varint() {
    let d = user_descriptor();
    let mut m = DynamicMessage::new(d.clone_handle());
    m.set_field_by_name("count", Value::I32(-1));
    let bytes = m.encode_to_vec();
    assert_eq!(bytes, vec![0x10, 0xff, 0xff, 0xff, 0xff, 0xff, 0xff, 0xff, 0xff, 0xff, 0x01]);
    assert_eq!(m.encoded_len(), bytes.len());
    let back = DynamicMessage::decode(d, bytes.as_slice()).ok().unwrap();
    assert_eq!(as_i32(&back.get_field_by_name("count").unwrap()), Some(-1));
}

#[test]
fn test_decode_with_options_should_apply_limits() {
    let d = user_descriptor();
    let mut m = DynamicMessage::new(d.clone_handle());
    m.set_field_by_name("id", Value::String("alice".into()));
    let bytes = m.encode_to_vec();
    let small = DecodeOptions::new().with_max_message_size(2);
    assert!(matches!(
        DynamicMessage::decode_with_options(d.clone_handle(), &bytes, small),
        Err(DecodeError::MessageTooLarge)
    ));
    let back = DynamicMessage::decode_with_options(d, &bytes, DecodeOptions::default()).ok().unwrap();
    assert!(same_message(&m, &back));
}

#[test]
fn test_field_of_another_message_is_stored_by_number() {
    let pool = user_pool();
    let user_d = pool.get_message_by_name("acme.User").unwrap();
    let address_d = pool.get_message_by_name("acme.User.Address").unwrap();
    let street = address_d.get_field_by_name("street").unwrap();
    let mut m = DynamicMessage::new(user_d);
    m.set_field(&street, Value::String("1 Royal Crescent".into()));
    assert!(m.has_field_by_number(street.number()));
    assert_eq!(as_str(&m.get_field(&street)), Some("1 Royal Crescent"));
    m.clear_field(&street);
    assert!(!m.has_field_by_number(street.number()));
}

#[test]
fn dynamic_message_reflects_its_descriptor() {
    let m = DynamicMessage::new(user_descriptor());
    let r = buffa_reflect::reflect::ReflectMessage::descriptor(&m);
    assert_eq!(r.full_name(), "acme.User");
}

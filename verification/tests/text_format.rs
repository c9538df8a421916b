use buffa_reflect::descriptor::{
    DescriptorProto, EnumDescriptorProto, EnumValueDescriptorProto, FieldDescriptorProto,
    FileDescriptorProto, FileDescriptorSet, Label, MessageOptions, OneofDescriptorProto, Type,
};
use buffa_reflect::handles::MessageDescriptor;
use buffa_reflect::message::DynamicMessage;
use buffa_reflect::options::FormatOptions;
use buffa_reflect::pool::DescriptorPool;
use buffa_reflect::textfmt::FloatTexts;
use buffa_reflect::textparse::{numeric_literals, FloatLiterals, ParseErrorKind};
use buffa_reflect::value::{MapKey, Value};

fn enum_value(name: &str, number: i32) -> EnumValueDescriptorProto {
    EnumValueDescriptorProto { name: Some(name.into()), number: Some(number) }
}

fn field(name: &str, number: i32, ty: Type, label: Label, type_ref: Option<&str>) -> FieldDescriptorProto {
    FieldDescriptorProto {
        name: Some(name.into()),
        number: Some(number),
        label: Some(label),
        field_type: Some(ty),
        type_path: type_ref.map(str::to_string),
        default_value: None,
        oneof_index: None,
        json_name: None,
        options: None,
        proto3_optional: None,
    }
}

fn build_pool() -> DescriptorPool {
    let role = EnumDescriptorProto {
        name: Some("Role".into()),
        value: vec![enum_value("ROLE_UNSPECIFIED", 0), enum_value("ROLE_ADMIN", 1), enum_value("ROLE_USER", 2)],
    };
    let tags_entry = DescriptorProto {
        name: Some("TagsEntry".into()),
        field: vec![
            field("key", 1, Type::TypeString, Label::LabelOptional, None),
            field("value", 2, Type::TypeString, Label::LabelOptional, None),
        ],
        nested_type: vec![],
        enum_type: vec![],
        oneof_decl: vec![],
        options: Some(MessageOptions { map_entry: Some(true) }),
    };
    let tags = field("tags", 9, Type::TypeMessage, Label::LabelRepeated, Some(".acme.User.TagsEntry"));
    let mut email = field("email", 30, Type::TypeString, Label::LabelOptional, None);
    email.oneof_index = Some(0);
    let mut phone = field("phone", 31, Type::TypeString, Label::LabelOptional, None);
    phone.oneof_index = Some(0);
    let user = DescriptorProto {
        name: Some("User".into()),
        field: vec![
            field("name", 1, Type::TypeString, Label::LabelOptional, None),
            field("count", 2, Type::TypeInt32, Label::LabelOptional, None),
            field("balance", 3, Type::TypeInt64, Label::LabelOptional, None),
            field("active", 4, Type::TypeBool, Label::LabelOptional, None),
            field("blob", 5, Type::TypeBytes, Label::LabelOptional, None),
            field("role", 6, Type::TypeEnum, Label::LabelOptional, Some(".acme.Role")),
            field("scores", 7, Type::TypeInt32, Label::LabelRepeated, None),
            tags,
            email,
            phone,
            field("ratio", 40, Type::TypeDouble, Label::LabelOptional, None),
        ],
        nested_type: vec![tags_entry],
        enum_type: vec![],
        oneof_decl: vec![OneofDescriptorProto { name: Some("contact".into()) }],
        options: None,
    };
    let file = FileDescriptorProto {
        name: Some("acme/user.proto".into()),
        package: Some("acme".into()),
        message_type: vec![user],
        enum_type: vec![role],
        service: vec![],
        syntax: Some("proto3".into()),
    };
    DescriptorPool::from_file_descriptor_set(FileDescriptorSet { file: vec![file] }).ok().unwrap()
}

fn user_descriptor() -> MessageDescriptor {
    build_pool().get_message_by_name("acme.User").unwrap()
}

/// Float texts as the standard library renders them.
fn float_texts(m: &DynamicMessage) -> FloatTexts {
    let mut t = FloatTexts::new();
    for (single, bits) in m.float_values() {
        let v = if single { f32::from_bits(bits as u32) as f64 } else { f64::from_bits(bits) };
        let s = if v.is_nan() {
            "nan".to_string()
        } else if v.is_infinite() {
            if v > 0.0 { "inf".to_string() } else { "-inf".to_string() }
        } else if v == v.trunc() {
            format!("{v:.1}")
        } else {
            format!("{v}")
        };
        t.insert(single, bits, s);
    }
    t
}

/// Float literals as the standard library parses them.
fn float_literals(input: &str) -> FloatLiterals {
    let mut t = FloatLiterals::new();
    for lit in numeric_literals(input) {
        if let Ok(v) = lit.parse::<f64>() {
            t.insert(lit, (v as f32).to_bits(), v.to_bits());
        }
    }
    t
}

fn to_text(m: &DynamicMessage) -> String {
    m.to_text_format(&float_texts(m))
}

fn parse(d: MessageDescriptor, s: &str) -> DynamicMessage {
    DynamicMessage::parse_text_format(d, s, &float_literals(s)).ok().unwrap()
}

fn same_key(a: &MapKey, b: &MapKey) -> bool {
    match (a, b) {
        (MapKey::Bool(x), MapKey::Bool(y)) => x == y,
        (MapKey::I32(x), MapKey::I32(y)) => x == y,
        (MapKey::I64(x), MapKey::I64(y)) => x == y,
        (MapKey::U32(x), MapKey::U32(y)) => x == y,
        (MapKey::U64(x), MapKey::U64(y)) => x == y,
        (MapKey::String(x), MapKey::String(y)) => x == y,
        _ => false,
    }
}

fn same_value(a: &Value, b: &Value) -> bool {
    match (a, b) {
        (Value::Bool(x), Value::Bool(y)) => x == y,
        (Value::I32(x), Value::I32(y)) => x == y,
        (Value::I64(x), Value::I64(y)) => x == y,
        (Value::U32(x), Value::U32(y)) => x == y,
        (Value::U64(x), Value::U64(y)) => x == y,
        (Value::F32(x), Value::F32(y)) => x == y,
        (Value::F64(x), Value::F64(y)) => x == y,
        (Value::String(x), Value::String(y)) => x == y,
        (Value::Bytes(x), Value::Bytes(y)) => x == y,
        (Value::EnumNumber(x), Value::EnumNumber(y)) => x == y,
        (Value::Message(x), Value::Message(y)) => same_message(x, y),
        (Value::List(x), Value::List(y)) => {
            x.len() == y.len() && x.iter().zip(y.iter()).all(|(p, q)| same_value(p, q))
        },
        (Value::Mapping(x), Value::Mapping(y)) => {
            x.len() == y.len()
                && x.iter().all(|(k, v)| y.iter().any(|(k2, v2)| same_key(k, k2) && same_value(v, v2)))
        },
        _ => false,
    }
}

/// Same type, the same known fields (by number) holding equal values, map
/// entries compared regardless of order, the same unknown field numbers,
/// and the same encoding.
fn same_message(a: &DynamicMessage, b: &DynamicMessage) -> bool {
    let fa = a.fields();
    let fb = b.fields();
    let ua: Vec<u32> = a.unknown_fields().iter().map(|(n, _)| *n).collect();
    let ub: Vec<u32> = b.unknown_fields().iter().map(|(n, _)| *n).collect();
    a.descriptor().full_name() == b.descriptor().full_name()
        && fa.len() == fb.len()
        && fa
            .iter()
            .zip(fb.iter())
            .all(|((f1, v1), (f2, v2))| f1.number() == f2.number() && same_value(v1, v2))
        && ua == ub
        && a.encode_to_vec() == b.encode_to_vec()
}

#[test]
fn test_should_format_basic_scalars() {
    let mut m = DynamicMessage::new(user_descriptor());
    m.set_field_by_name("name", Value::String("alice".into()));
    m.set_field_by_name("count", Value::I32(7));
    let s = to_text(&m);
    assert!(s.contains(r#"name: "alice""#));
    assert!(s.contains("count: 7"));
    assert_eq!(s, r#"name: "alice" count: 7"#);
}

#[test]
fn test_should_format_repeated_short_form() {
    let mut m = DynamicMessage::new(user_descriptor());
    m.set_field_by_name("scores", Value::List(vec![Value::I32(1), Value::I32(2), Value::I32(3)]));
    let s = to_text(&m);
    assert!(s.contains("scores: 1"));
    assert!(s.contains("scores: 2"));
    assert!(s.contains("scores: 3"));
    assert_eq!(s, "scores: 1 scores: 2 scores: 3");
}

#[test]
fn test_should_round_trip_through_text_format() {
    let d = user_descriptor();
    let mut original = DynamicMessage::new(d.clone_handle());
    original.set_field_by_name("name", Value::String("alice".into()));
    original.set_field_by_name("count", Value::I32(7));
    original.set_field_by_name("balance", Value::I64(99));
    original.set_field_by_name("active", Value::Bool(true));
    original.set_field_by_name("blob", Value::Bytes(vec![1, 2]));
    original.set_field_by_name("role", Value::EnumNumber(1));
    original.set_field_by_name("scores", Value::List(vec![Value::I32(1), Value::I32(2)]));
    original.set_field_by_name("tags", Value::Mapping(vec![(MapKey::String("a".into()), Value::String("1".into()))]));
    let s = to_text(&original);
    let restored = parse(d, &s);
    assert!(same_message(&original, &restored));
}

#[test]
fn test_every_byte_should_survive_a_bytes_literal() {
    let d = user_descriptor();
    let mut original = DynamicMessage::new(d.clone_handle());
    let all: Vec<u8> = (0u16..256).map(|b| b as u8).collect();
    original.set_field_by_name("blob", Value::Bytes(all.clone()));
    let s = to_text(&original);
    assert!(s.chars().all(|c| (' '..='~').contains(&c) || c == '\n'));
    let restored = parse(d, &s);
    assert!(same_message(&original, &restored));
    match restored.get_field_by_name("blob").unwrap() {
        Value::Bytes(b) => assert_eq!(b, all),
        _ => panic!("not bytes"),
    }
}

#[test]
fn test_should_pretty_print_with_indentation() {
    let mut m = DynamicMessage::new(user_descriptor());
    m.set_field_by_name("name", Value::String("alice".into()));
    let s = m.to_text_format_with_options(&FormatOptions::new().pretty(true), &FloatTexts::new());
    assert!(s.contains("name: \"alice\"\n") || s.ends_with('\n'));
    assert_eq!(s, "name: \"alice\"\n");
}

#[test]
fn test_should_parse_short_repeated_form() {
    let m = parse(user_descriptor(), "scores: [1, 2, 3]");
    match m.get_field_by_name("scores").unwrap() {
        Value::List(l) => {
            let items: Vec<i32> = l.iter().map(|x| match x {
                Value::I32(v) => *v,
                _ => panic!("not an int32"),
            }).collect();
            assert_eq!(items, vec![1, 2, 3]);
        },
        _ => panic!("not a list"),
    }
}

#[test]
fn text_format_test_should_emit_enum_as_name() {
    let mut m = DynamicMessage::new(user_descriptor());
    m.set_field_by_name("role", Value::EnumNumber(2));
    assert!(to_text(&m).contains("role: ROLE_USER"));
}

#[test]
fn test_should_skip_unknown_fields_when_set() {
    let mut m = DynamicMessage::new(user_descriptor());
    m.set_field_by_name("name", Value::String("alice".into()));
    let s = m.to_text_format_with_options(&FormatOptions::new().skip_unknown_fields(true), &FloatTexts::new());
    assert!(s.contains("name"));
}

#[test]
fn test_should_strip_comments_on_parse() {
    let s = r#"
# this is a comment
name: "alice" # trailing comment
count: 42
"#;
    let m = parse(user_descriptor(), s);
    assert!(matches!(m.get_field_by_name("name").unwrap(), Value::String(ref x) if x == "alice"));
    assert!(matches!(m.get_field_by_name("count").unwrap(), Value::I32(42)));
}

#[test]
fn text_format_test_should_round_trip_oneof_member() {
    let d = user_descriptor();
    let mut m = DynamicMessage::new(d.clone_handle());
    m.set_field_by_name("phone", Value::String("+1-555-0100".into()));
    let s = to_text(&m);
    let restored = parse(d, &s);
    assert!(same_message(&m, &restored));
}

#[test]
fn map_entries_print_in_key_order() {
    let mut m = DynamicMessage::new(user_descriptor());
    m.set_field_by_name(
        "tags",
        Value::Mapping(vec![
            (MapKey::String("b".into()), Value::String("2".into())),
            (MapKey::String("a".into()), Value::String("1".into())),
        ]),
    );
    assert_eq!(to_text(&m), r#"tags {key: "a" value: "1"} tags {key: "b" value: "2"}"#);
    let pretty = m.to_text_format_with_options(&FormatOptions::new().pretty(true), &FloatTexts::new());
    assert_eq!(pretty, "tags {\n  key: \"a\"\n  value: \"1\"\n}\ntags {\n  key: \"b\"\n  value: \"2\"\n}\n");
}

#[test]
fn strings_and_bytes_are_escaped() {
    let mut m = DynamicMessage::new(user_descriptor());
    m.set_field_by_name("name", Value::String("a\"b\n".into()));
    m.set_field_by_name("blob", Value::Bytes(vec![0, 0x41, 0xff]));
    assert_eq!(to_text(&m), r#"name: "a\"b\n" blob: "\000A\377""#);
    let back = parse(user_descriptor(), &to_text(&m));
    assert!(same_message(&m, &back));
}

#[test]
fn doubles_print_through_the_float_table() {
    let mut m = DynamicMessage::new(user_descriptor());
    m.set_field_by_name("ratio", Value::F64(2.0f64.to_bits()));
    assert_eq!(to_text(&m), "ratio: 2.0");
    m.set_field_by_name("ratio", Value::F64(1.25f64.to_bits()));
    assert_eq!(to_text(&m), "ratio: 1.25");
    let back = parse(user_descriptor(), "ratio: 1.25");
    assert!(matches!(back.get_field_by_name("ratio").unwrap(), Value::F64(b) if b == 1.25f64.to_bits()));
    let inf = parse(user_descriptor(), "ratio: inf");
    assert!(matches!(inf.get_field_by_name("ratio").unwrap(), Value::F64(b) if b == f64::INFINITY.to_bits()));
}

#[test]
fn integers_parse_in_hex_and_octal() {
    let m = parse(user_descriptor(), "count: 0x1f balance: -010");
    assert!(matches!(m.get_field_by_name("count").unwrap(), Value::I32(31)));
    assert!(matches!(m.get_field_by_name("balance").unwrap(), Value::I64(-8)));
}

#[test]
fn enum_values_parse_by_name_and_number() {
    let m = parse(user_descriptor(), "role: ROLE_ADMIN");
    assert!(matches!(m.get_field_by_name("role").unwrap(), Value::EnumNumber(1)));
    let m = parse(user_descriptor(), "role: 2");
    assert!(matches!(m.get_field_by_name("role").unwrap(), Value::EnumNumber(2)));
}

#[test]
fn map_entries_parse() {
    let m = parse(user_descriptor(), r#"tags { key: "x" value: "y" } tags < key: "z" >"#);
    match m.get_field_by_name("tags").unwrap() {
        Value::Mapping(es) => {
            assert_eq!(es.len(), 2);
            assert!(matches!(&es[1].1, Value::String(s) if s.is_empty()));
        },
        _ => panic!("not a map"),
    }
}

#[test]
fn parse_errors_name_their_position() {
    let d = user_descriptor();
    let e = DynamicMessage::parse_text_format(d.clone_handle(), "name: \"a\"\n  nope: 1", &FloatLiterals::new()).err().unwrap();
    assert_eq!((e.line, e.col), (2, 3));
    assert!(matches!(e.kind, ParseErrorKind::UnknownField(ref n) if n == "nope"));
    let e = DynamicMessage::parse_text_format(d.clone_handle(), "count: \"x\"", &FloatLiterals::new()).err().unwrap();
    assert!(matches!(e.kind, ParseErrorKind::UnexpectedToken(_)));
    let e = DynamicMessage::parse_text_format(d.clone_handle(), "count:", &FloatLiterals::new()).err().unwrap();
    assert!(matches!(e.kind, ParseErrorKind::UnexpectedEof));
    let e = DynamicMessage::parse_text_format(d.clone_handle(), "count: 1 $", &FloatLiterals::new()).err().unwrap();
    assert!(matches!(e.kind, ParseErrorKind::InvalidToken));
    assert_eq!((e.line, e.col), (1, 10));
    let e = DynamicMessage::parse_text_format(d.clone_handle(), "role: ROLE_NOPE", &FloatLiterals::new()).err().unwrap();
    assert!(matches!(e.kind, ParseErrorKind::Schema(_)));
    let e = DynamicMessage::parse_text_format(d, "balance: 99999999999999999999", &FloatLiterals::new()).err().unwrap();
    assert!(matches!(e.kind, ParseErrorKind::Schema(_)));
    assert_eq!((e.line, e.col), (0, 0));
}

#[test]
fn empty_input_parses_to_an_empty_message() {
    let m = parse(user_descriptor(), "  # nothing here\n");
    assert!(m.is_empty());
}

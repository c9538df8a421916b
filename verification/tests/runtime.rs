use buffa_reflect::descriptor::{
    DescriptorProto, EnumDescriptorProto, EnumValueDescriptorProto, FieldDescriptorProto,
    FileDescriptorProto, FileDescriptorSet, Label, MessageOptions, OneofDescriptorProto, Type,
};
use buffa_reflect::error::DescriptorError;
use buffa_reflect::handles::Kind;
use buffa_reflect::pool::{Cardinality, DescriptorPool};

fn enum_value(name: &str, number: i32) -> EnumValueDescriptorProto {
    EnumValueDescriptorProto { name: Some(name.to_string()), number: Some(number) }
}

fn field(name: &str, number: i32, ty: Type, label: Label, type_ref: Option<&str>) -> FieldDescriptorProto {
    FieldDescriptorProto {
        name: Some(name.to_string()),
        number: Some(number),
        label: Some(label),
        field_type: Some(ty),
        type_path: type_ref.map(str::to_string),
        default_value: None,
        oneof_index: None,
        json_name: None,
        options: None,
        proto3_optional: None,
    }
}

fn user_message() -> DescriptorProto {
    let labels_entry = DescriptorProto {
        name: Some("LabelsEntry".to_string()),
        field: vec![
            field("key", 1, Type::TypeString, Label::LabelOptional, None),
            field("value", 2, Type::TypeString, Label::LabelOptional, None),
        ],
        nested_type: vec![],
        enum_type: vec![],
        oneof_decl: vec![],
        options: Some(MessageOptions { map_entry: Some(true) }),
    };
    let mut email = field("email", 4, Type::TypeString, Label::LabelOptional, None);
    email.oneof_index = Some(0);
    let mut phone = field("phone", 5, Type::TypeString, Label::LabelOptional, None);
    phone.oneof_index = Some(0);
    let mut nickname = field("nickname", 6, Type::TypeString, Label::LabelOptional, None);
    nickname.oneof_index = Some(1);
    nickname.proto3_optional = Some(true);
    DescriptorProto {
        name: Some("User".to_string()),
        field: vec![
            field("id", 1, Type::TypeString, Label::LabelOptional, None),
            field("role", 2, Type::TypeEnum, Label::LabelOptional, Some(".acme.api.v1.Role")),
            field("labels", 3, Type::TypeMessage, Label::LabelRepeated, Some(".acme.api.v1.User.LabelsEntry")),
            email,
            phone,
            nickname,
            field("scores", 7, Type::TypeInt32, Label::LabelRepeated, None),
        ],
        nested_type: vec![labels_entry],
        enum_type: vec![],
        oneof_decl: vec![
            OneofDescriptorProto { name: Some("contact".to_string()) },
            OneofDescriptorProto { name: Some("_nickname".to_string()) },
        ],
        options: None,
    }
}

fn build_user_file() -> FileDescriptorProto {
    let role = EnumDescriptorProto {
        name: Some("Role".to_string()),
        value: vec![enum_value("ROLE_UNSPECIFIED", 0), enum_value("ROLE_ADMIN", 1), enum_value("ROLE_USER", 2)],
    };
    FileDescriptorProto {
        name: Some("acme/api/v1/user.proto".to_string()),
        package: Some("acme.api.v1".to_string()),
        message_type: vec![user_message()],
        enum_type: vec![role],
        service: vec![],
        syntax: Some("proto3".to_string()),
    }
}

fn pool_of(files: Vec<FileDescriptorProto>) -> Result<DescriptorPool, DescriptorError> {
    DescriptorPool::from_file_descriptor_set(FileDescriptorSet { file: files })
}

fn rejected(files: Vec<FileDescriptorProto>, why: &str) -> DescriptorError {
    match pool_of(files) {
        Ok(_) => panic!("{why}"),
        Err(e) => e,
    }
}

fn build_user_pool() -> DescriptorPool {
    pool_of(vec![build_user_file()]).expect("pool builds")
}

#[test]
fn test_should_resolve_message_by_full_name() {
    let pool = build_user_pool();
    let user = pool.get_message_by_name("acme.api.v1.User").expect("user message present");
    assert_eq!(user.full_name(), "acme.api.v1.User");
    assert_eq!(user.name(), "User");
    assert_eq!(user.parent_file().package(), "acme.api.v1");
    assert_eq!(user.parent_file().syntax(), "proto3");
    assert!(pool.get_message_by_name(".acme.api.v1.User").is_some());
    assert!(pool.get_message_by_name("acme.api.v1.NotAType").is_none());
}

#[test]
fn test_should_resolve_field_kinds() {
    let pool = build_user_pool();
    let user = pool.get_message_by_name("acme.api.v1.User").unwrap();

    let id = user.get_field_by_name("id").unwrap();
    assert_eq!(id.number(), 1);
    assert_eq!(id.json_name(), "id");
    assert!(matches!(id.kind(), Kind::String));
    assert_eq!(id.cardinality(), Cardinality::Optional);

    let role = user.get_field_by_number(2).unwrap();
    let Kind::Enum(role_enum) = role.kind() else {
        panic!("role should resolve to an enum kind");
    };
    assert_eq!(role_enum.full_name(), "acme.api.v1.Role");

    let labels = user.get_field_by_name("labels").unwrap();
    assert_eq!(labels.cardinality(), Cardinality::Repeated);
    assert!(labels.is_map());

    let scores = user.get_field_by_name("scores").unwrap();
    assert_eq!(scores.cardinality(), Cardinality::Repeated);
    assert!(scores.is_packed(), "proto3 scalars pack by default");
}

#[test]
fn test_should_track_oneofs_and_synthetic_oneofs() {
    let pool = build_user_pool();
    let user = pool.get_message_by_name("acme.api.v1.User").unwrap();
    let oneofs = user.oneofs();
    assert_eq!(oneofs.len(), 2);
    assert_eq!(oneofs[0].name(), "contact");
    assert!(!oneofs[0].is_synthetic());
    let contact_fields = oneofs[0].fields();
    assert_eq!(contact_fields.len(), 2);
    assert_eq!(contact_fields[0].name(), "email");

    assert!(oneofs[1].is_synthetic(), "proto3 optional → synthetic");
    let nickname = user.get_field_by_name("nickname").unwrap();
    assert!(nickname.supports_presence());
    let containing = nickname.containing_oneof().unwrap();
    assert!(containing.is_synthetic());
}

#[test]
fn test_should_lookup_by_json_name() {
    let mut file = build_user_file();
    file.message_type[0].field.push(field("given_name", 9, Type::TypeString, Label::LabelOptional, None));
    let pool = pool_of(vec![file]).unwrap();
    let user = pool.get_message_by_name("acme.api.v1.User").unwrap();
    let by_snake = user.get_field_by_name("given_name").unwrap();
    let by_json = user.get_field_by_json_name("givenName").unwrap();
    assert_eq!(by_snake.number(), by_json.number());
    assert_eq!(by_json.json_name(), "givenName");
}

#[test]
fn test_should_reject_dangling_type_name() {
    let mut file = build_user_file();
    file.message_type[0].field.push(field(
        "missing_ref",
        99,
        Type::TypeMessage,
        Label::LabelOptional,
        Some(".acme.api.v1.NoSuchType"),
    ));
    let err = rejected(vec![file], "dangling type reference must error");
    match err {
        DescriptorError::UnresolvedType { referenced, .. } => {
            assert_eq!(referenced, ".acme.api.v1.NoSuchType");
        }
        other => panic!("expected UnresolvedType, got {other:?}"),
    }
}

#[test]
fn test_should_reject_duplicate_type_definition() {
    let mut file = build_user_file();
    file.message_type.push(user_message());
    let err = rejected(vec![file], "duplicate type must error");
    assert!(matches!(err, DescriptorError::DuplicateType(_)));
}

#[test]
fn test_should_reject_invalid_field_number() {
    let mut file = build_user_file();
    file.message_type[0].field.push(field("bad", 19_500, Type::TypeString, Label::LabelOptional, None));
    let err = rejected(vec![file], "reserved field number must error");
    assert!(matches!(err, DescriptorError::InvalidFieldNumber { .. }));
}

#[test]
fn test_should_reject_proto3_required_field() {
    let mut file = build_user_file();
    file.message_type[0].field.push(field("must_have", 80, Type::TypeString, Label::LabelRequired, None));
    let err = rejected(vec![file], "proto3 disallows required");
    assert!(matches!(err, DescriptorError::Proto3RequiredField { .. }));
}

#[test]
fn test_should_reject_duplicate_file() {
    let err = rejected(vec![build_user_file(), build_user_file()], "duplicate file must error");
    assert!(matches!(err, DescriptorError::DuplicateFile(_)));
}

#[test]
fn test_should_reject_proto3_enum_without_zero() {
    let bad = EnumDescriptorProto { name: Some("Bad".to_string()), value: vec![enum_value("BAD_ONE", 1)] };
    let file = FileDescriptorProto {
        name: Some("acme/v1/bad.proto".to_string()),
        package: Some("acme.v1".to_string()),
        message_type: vec![],
        enum_type: vec![bad],
        service: vec![],
        syntax: Some("proto3".to_string()),
    };
    let err = rejected(vec![file], "proto3 enum needs value 0");
    assert!(matches!(err, DescriptorError::Proto3EnumMissingZero(_)));
}

#[test]
fn test_should_resolve_relative_type_names() {
    let mut file = build_user_file();
    file.message_type[0].field.push(field("relative_role", 50, Type::TypeEnum, Label::LabelOptional, Some("Role")));
    let pool = pool_of(vec![file]).unwrap();
    let user = pool.get_message_by_name("acme.api.v1.User").unwrap();
    let f = user.get_field_by_name("relative_role").unwrap();
    let Kind::Enum(e) = f.kind() else {
        panic!("expected enum kind");
    };
    assert_eq!(e.full_name(), "acme.api.v1.Role");
}

#[test]
fn test_should_iterate_all_messages_including_nested() {
    let pool = build_user_pool();
    let names: Vec<String> = pool.all_messages().iter().map(|m| m.full_name().to_string()).collect();
    assert!(names.contains(&"acme.api.v1.User".to_string()));
    assert!(names.contains(&"acme.api.v1.User.LabelsEntry".to_string()));
}

// ── further behaviour of the pool ───────────────────────────────────────

#[test]
fn rejected_set_leaves_pool_unchanged() {
    let mut pool = build_user_pool();
    let before = pool.message_count();
    let mut bad = build_user_file();
    bad.name = Some("acme/api/v1/other.proto".to_string());
    let r = pool.add_file_descriptor_set(FileDescriptorSet { file: vec![bad] });
    assert!(matches!(r, Err(DescriptorError::DuplicateType(_))));
    assert_eq!(pool.message_count(), before);
    assert_eq!(pool.file_count(), 1);
    assert!(pool.get_file_by_name("acme/api/v1/other.proto").is_none());
}

#[test]
fn missing_file_name_is_rejected() {
    let mut file = build_user_file();
    file.name = None;
    assert!(matches!(pool_of(vec![file]), Err(DescriptorError::MissingFileName)));
}

#[test]
fn field_number_zero_is_rejected() {
    let mut file = build_user_file();
    file.message_type[0].field.push(field("zero", 0, Type::TypeString, Label::LabelOptional, None));
    match rejected(vec![file], "field number 0 must error") {
        DescriptorError::InvalidFieldNumber { number, max, .. } => {
            assert_eq!(number, 0);
            assert_eq!(max, 536_870_911);
        }
        other => panic!("expected InvalidFieldNumber, got {other:?}"),
    }
}

#[test]
fn oneof_index_out_of_range_is_rejected() {
    let mut file = build_user_file();
    let mut f = field("stray", 60, Type::TypeString, Label::LabelOptional, None);
    f.oneof_index = Some(5);
    file.message_type[0].field.push(f);
    assert!(matches!(pool_of(vec![file]), Err(DescriptorError::InvalidOneofIndex { index: 5, count: 2, .. })));
}

#[test]
fn enum_values_resolve_by_name_and_number() {
    let pool = build_user_pool();
    let role = pool.get_enum_by_name("acme.api.v1.Role").unwrap();
    assert_eq!(role.values().len(), 3);
    assert_eq!(role.get_value_by_name("ROLE_USER").unwrap().number(), 2);
    assert_eq!(role.get_value_by_number(1).unwrap().name(), "ROLE_ADMIN");
    assert!(role.get_value_by_number(7).is_none());
    assert_eq!(role.get_value_by_number(0).unwrap().full_name(), "acme.api.v1.Role.ROLE_UNSPECIFIED");
}

#[test]
fn nested_message_knows_its_parent() {
    let pool = build_user_pool();
    let entry = pool.get_message_by_name("acme.api.v1.User.LabelsEntry").unwrap();
    assert!(entry.is_map_entry());
    assert_eq!(entry.parent_message().unwrap().full_name(), "acme.api.v1.User");
    assert!(pool.get_message_by_name("acme.api.v1.User").unwrap().parent_message().is_none());
}

#[test]
fn file_lists_messages_and_enums() {
    let pool = build_user_pool();
    let file = pool.get_file_by_name("acme/api/v1/user.proto").unwrap();
    assert_eq!(file.messages().len(), 1);
    assert_eq!(file.enums().len(), 1);
    assert_eq!(file.name(), "acme/api/v1/user.proto");
    assert_eq!(pool.files().len(), 1);
}

fn bare_file(name: &str) -> FileDescriptorProto {
    FileDescriptorProto {
        name: Some(name.to_string()),
        package: Some("acme".to_string()),
        message_type: vec![],
        enum_type: vec![],
        service: vec![],
        syntax: Some("proto3".to_string()),
    }
}

#[test]
fn test_set_of_fresh_files_without_declarations_is_accepted() {
    assert!(pool_of(vec![]).is_ok());
    assert!(pool_of(vec![bare_file("a.proto"), bare_file("b.proto")]).is_ok());
    // The same name twice in one set is refused.
    let err = rejected(vec![bare_file("a.proto"), bare_file("a.proto")], "duplicate file accepted");
    assert!(matches!(err, DescriptorError::DuplicateFile(ref n) if n == "a.proto"));
}

fn plain_message(name: &str, fields: Vec<FieldDescriptorProto>, nested: Vec<DescriptorProto>) -> DescriptorProto {
    DescriptorProto {
        name: Some(name.to_string()),
        field: fields,
        nested_type: nested,
        enum_type: vec![],
        oneof_decl: vec![],
        options: None,
    }
}

#[test]
fn test_set_of_plain_messages_is_accepted() {
    let inner = plain_message(
        "Inner",
        vec![field("label", 1, Type::TypeString, Label::LabelOptional, None)],
        vec![],
    );
    let point = plain_message(
        "Point",
        vec![
            field("x", 1, Type::TypeInt32, Label::LabelOptional, None),
            field("y", 2, Type::TypeInt32, Label::LabelOptional, None),
            field("tags", 3, Type::TypeString, Label::LabelRepeated, None),
        ],
        vec![inner],
    );
    let mut file = bare_file("geo.proto");
    file.message_type = vec![point];
    file.enum_type = vec![EnumDescriptorProto {
        name: Some("Shape".to_string()),
        value: vec![enum_value("SHAPE_UNSPECIFIED", 0), enum_value("SHAPE_ROUND", 1)],
    }];
    let pool = pool_of(vec![file, bare_file("other.proto")]).ok().unwrap();
    assert!(pool.get_message_by_name("acme.Point").is_some());
    assert!(pool.get_message_by_name("acme.Point.Inner").is_some());
    assert!(pool.get_enum_by_name("acme.Shape").is_some());
}

#[test]
fn test_proto2_required_field_and_enum_without_zero_are_accepted() {
    let level = EnumDescriptorProto {
        name: Some("Level".to_string()),
        value: vec![enum_value("LEVEL_LOW", 1), enum_value("LEVEL_HIGH", 2)],
    };
    let job = plain_message(
        "Job",
        vec![
            field("id", 1, Type::TypeInt64, Label::LabelRequired, None),
            field("level", 2, Type::TypeEnum, Label::LabelOptional, Some(".legacy.Level")),
        ],
        vec![],
    );
    let file = FileDescriptorProto {
        name: Some("legacy/job.proto".to_string()),
        package: Some("legacy".to_string()),
        message_type: vec![job],
        enum_type: vec![level],
        service: vec![],
        syntax: None,
    };
    let pool = pool_of(vec![file]).ok().unwrap();
    let job = pool.get_message_by_name("legacy.Job").unwrap();
    let id = job.get_field_by_name("id").unwrap();
    assert!(matches!(id.cardinality(), Cardinality::Required));
    assert!(pool.get_enum_by_name("legacy.Level").is_some());
}

#[test]
fn enum_and_oneof_descriptor_protos_are_their_declarations() {
    let pool = build_user_pool();
    let role = pool.get_enum_by_name("acme.api.v1.Role").unwrap();
    let ep = role.descriptor_proto().unwrap();
    assert_eq!(ep.name.as_deref(), Some("Role"));
    assert_eq!(ep.value.len(), 3);
    let user = pool.get_message_by_name("acme.api.v1.User").unwrap();
    let oneofs = user.oneofs();
    assert_eq!(oneofs[0].descriptor_proto().unwrap().name.as_deref(), Some("contact"));
    assert_eq!(oneofs[1].descriptor_proto().unwrap().name.as_deref(), Some("_nickname"));
}

#[test]
fn test_scalar_defaults_that_parse_are_accepted() {
    let mut retries = field("retries", 1, Type::TypeInt32, Label::LabelOptional, None);
    retries.default_value = Some("-3".to_string());
    let mut enabled = field("enabled", 2, Type::TypeBool, Label::LabelOptional, None);
    enabled.default_value = Some("true".to_string());
    let settings = plain_message("Settings", vec![retries, enabled], vec![]);
    let file = FileDescriptorProto {
        name: Some("legacy/settings.proto".to_string()),
        package: Some("legacy".to_string()),
        message_type: vec![settings],
        enum_type: vec![],
        service: vec![],
        syntax: Some("proto2".to_string()),
    };
    let pool = pool_of(vec![file]).ok().unwrap();
    assert!(pool.get_message_by_name("legacy.Settings").is_some());
}

#[test]
fn test_untyped_reference_resolves_to_message_or_enum() {
    let mut kind = field("kind", 1, Type::TypeEnum, Label::LabelOptional, Some("Kind"));
    kind.field_type = None;
    let mut parent = field("parent", 2, Type::TypeMessage, Label::LabelOptional, Some(".open.Node"));
    parent.field_type = None;
    let mut node = plain_message("Node", vec![kind, parent], vec![]);
    node.enum_type = vec![EnumDescriptorProto {
        name: Some("Kind".to_string()),
        value: vec![enum_value("KIND_LEAF", 0)],
    }];
    let mut file = bare_file("open.proto");
    file.package = Some("open".to_string());
    file.message_type = vec![node];
    let pool = pool_of(vec![file]).ok().unwrap();
    let node = pool.get_message_by_name("open.Node").unwrap();
    assert!(matches!(node.get_field_by_name("kind").unwrap().kind(), Kind::Enum(_)));
    assert!(matches!(node.get_field_by_name("parent").unwrap().kind(), Kind::Message(_)));
}

fn enum_file(values: Vec<EnumValueDescriptorProto>) -> FileDescriptorProto {
    let mut file = bare_file("e.proto");
    file.enum_type = vec![EnumDescriptorProto { name: Some("Color".to_string()), value: values }];
    file
}

#[test]
fn test_enum_value_faults_are_reported_by_value() {
    let err = rejected(
        vec![enum_file(vec![enum_value("RED", 0), EnumValueDescriptorProto { name: None, number: Some(1) }])],
        "unnamed value accepted",
    );
    assert!(matches!(err, DescriptorError::MissingName { ref location } if location == "acme.Color"));
    let err = rejected(
        vec![enum_file(vec![enum_value("RED", 0), EnumValueDescriptorProto { name: Some("BLUE".to_string()), number: None }])],
        "unnumbered value accepted",
    );
    assert!(matches!(err, DescriptorError::Validation(ref m) if m == "enum `acme.Color` value `BLUE` is missing a number"));
    let err = rejected(
        vec![enum_file(vec![enum_value("RED", 0), enum_value("RED", 1)])],
        "repeated value name accepted",
    );
    assert!(matches!(err, DescriptorError::DuplicateType(ref n) if n == "acme.Color.RED"));
}

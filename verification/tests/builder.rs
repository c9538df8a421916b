use buffa_reflect::builder::{collect_message_full_names, proto_relative_name, Builder, Error};
use buffa_reflect::descriptor::{DescriptorProto, FileDescriptorProto, FileDescriptorSet};

fn named_message(name: &str, nested: Vec<DescriptorProto>) -> DescriptorProto {
    DescriptorProto {
        name: Some(name.to_string()),
        field: vec![],
        nested_type: nested,
        enum_type: vec![],
        oneof_decl: vec![],
        options: None,
    }
}

fn file_with(name: Option<&str>, package: Option<&str>, messages: Vec<DescriptorProto>) -> FileDescriptorProto {
    FileDescriptorProto {
        name: name.map(str::to_string),
        package: package.map(str::to_string),
        message_type: messages,
        enum_type: vec![],
        service: vec![],
        syntax: None,
    }
}

#[test]
fn test_collect_messages_walks_nested_and_map_entries() {
    let user = named_message("User", vec![named_message("Profile", vec![]), named_message("LabelsEntry", vec![])]);
    let fds = FileDescriptorSet { file: vec![file_with(Some("acme/v1/user.proto"), Some("acme.v1"), vec![user])] };
    let names = collect_message_full_names(&fds);
    assert_eq!(
        names,
        vec![
            "acme.v1.User".to_string(),
            "acme.v1.User.Profile".to_string(),
            "acme.v1.User.LabelsEntry".to_string(),
        ]
    );
}

#[test]
fn test_proto_relative_name_strips_longest_include() {
    let got = proto_relative_name("proto/vendor/ext.proto", &vec!["proto/".to_string(), "proto/vendor/".to_string()]);
    assert_eq!(got, "ext.proto");
}

#[test]
fn test_compile_errors_when_binding_missing() {
    let b = Builder::new().files(&["foo.proto"]).out_dir("/tmp");
    assert!(matches!(b.check_bindings(), Err(Error::MissingDescriptorBinding)));
}

#[test]
fn test_compile_errors_when_both_bindings_set() {
    let b = Builder::new()
        .descriptor_pool("crate::POOL")
        .file_descriptor_set_bytes("crate::BYTES")
        .out_dir("/tmp");
    assert!(matches!(b.check_bindings(), Err(Error::ConflictingDescriptorBindings)));
}

#[test]
fn test_use_buf_with_includes_returns_clean_error() {
    let b = Builder::new()
        .file_descriptor_set_bytes("crate::FILE_DESCRIPTOR_SET_BYTES")
        .use_buf()
        .files(&["acme/api/v1/user.proto"])
        .includes(&["proto/"])
        .out_dir("/tmp/out");
    assert!(matches!(b.check_bindings(), Err(Error::BufWithIncludes)));
}

// ── further behaviour of the configuration ──────────────────────────────

#[test]
fn one_binding_is_accepted() {
    let b = Builder::new().descriptor_pool("crate::POOL").files(&["a.proto"]).includes(&["proto/"]);
    assert!(b.check_bindings().is_ok());
}

#[test]
fn unnamed_messages_and_packageless_files_in_names() {
    let unnamed = DescriptorProto {
        name: None,
        field: vec![],
        nested_type: vec![named_message("Hidden", vec![])],
        enum_type: vec![],
        oneof_decl: vec![],
        options: None,
    };
    let fds = FileDescriptorSet {
        file: vec![file_with(Some("top.proto"), None, vec![named_message("Top", vec![]), unnamed])],
    };
    assert_eq!(collect_message_full_names(&fds), vec!["Top".to_string()]);
}

#[test]
fn relative_name_without_matching_include_is_unchanged() {
    assert_eq!(proto_relative_name("other/x.proto", &vec!["proto/".to_string()]), "other/x.proto");
    assert_eq!(proto_relative_name("proto/a/x.proto", &vec!["proto".to_string()]), "a/x.proto");
}

#[test]
fn reflection_attributes_bind_every_message() {
    let b = Builder::new().file_descriptor_set_bytes("crate::BYTES");
    let attrs = b.reflection_attributes(&vec!["acme.User".to_string()]).unwrap();
    assert_eq!(
        attrs,
        vec![
            (".".to_string(), "#[derive(::buffa_reflect::ReflectMessage)]".to_string()),
            (".".to_string(), "#[buffa_reflect(file_descriptor_set_bytes = \"crate::BYTES\")]".to_string()),
            (".acme.User".to_string(), "#[buffa_reflect(message_name = \"acme.User\")]".to_string()),
        ]
    );
    assert!(Builder::new().reflection_attributes(&vec![]).is_none());
}

#[test]
fn relative_files_for_protoc_strip_includes_and_drop_empty() {
    let b = Builder::new()
        .descriptor_pool("crate::POOL")
        .files(&["proto/a.proto", "proto/"])
        .includes(&["proto/"]);
    let fds = FileDescriptorSet { file: vec![] };
    assert_eq!(b.proto_relative_files(&fds), vec!["a.proto".to_string()]);
}

#[test]
fn relative_files_for_precompiled_fall_back_to_set() {
    let b = Builder::new().descriptor_pool("crate::POOL").descriptor_set("prebuilt.bin");
    let fds = FileDescriptorSet {
        file: vec![file_with(Some("x.proto"), None, vec![]), file_with(None, None, vec![]), file_with(Some("y.proto"), None, vec![])],
    };
    assert_eq!(b.proto_relative_files(&fds), vec!["x.proto".to_string(), "y.proto".to_string()]);
}

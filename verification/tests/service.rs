use buffa_reflect::descriptor::{
    DescriptorProto, FieldDescriptorProto, FileDescriptorProto, FileDescriptorSet, Label,
    MethodDescriptorProto, ServiceDescriptorProto, Type,
};
use buffa_reflect::pool::DescriptorPool;

fn string_field(name: &str, number: i32) -> FieldDescriptorProto {
    FieldDescriptorProto {
        name: Some(name.into()),
        number: Some(number),
        label: Some(Label::LabelOptional),
        field_type: Some(Type::TypeString),
        type_path: None,
        default_value: None,
        oneof_index: None,
        json_name: None,
        options: None,
        proto3_optional: None,
    }
}

fn message(name: &str, field: FieldDescriptorProto) -> DescriptorProto {
    DescriptorProto {
        name: Some(name.into()),
        field: vec![field],
        nested_type: vec![],
        enum_type: vec![],
        oneof_decl: vec![],
        options: None,
    }
}

fn method(name: &str, streaming: Option<bool>) -> MethodDescriptorProto {
    MethodDescriptorProto {
        name: Some(name.into()),
        input_type: Some(".acme.HelloRequest".into()),
        output_type: Some(".acme.HelloReply".into()),
        client_streaming: streaming,
        server_streaming: streaming,
    }
}

fn build_pool() -> DescriptorPool {
    let svc = ServiceDescriptorProto {
        name: Some("Greeter".into()),
        method: vec![method("SayHello", None), method("StreamHello", Some(true))],
    };
    let file = FileDescriptorProto {
        name: Some("acme/greet.proto".into()),
        package: Some("acme".into()),
        message_type: vec![
            message("HelloRequest", string_field("name", 1)),
            message("HelloReply", string_field("message", 1)),
        ],
        enum_type: vec![],
        service: vec![svc],
        syntax: Some("proto3".into()),
    };
    DescriptorPool::from_file_descriptor_set(FileDescriptorSet { file: vec![file] }).ok().unwrap()
}

#[test]
fn test_should_resolve_service_by_full_name() {
    let pool = build_pool();
    let svc = pool.get_service_by_name("acme.Greeter").unwrap();
    assert_eq!(svc.full_name(), "acme.Greeter");
    assert_eq!(svc.name(), "Greeter");
    assert_eq!(svc.parent_file().name(), "acme/greet.proto");
}

#[test]
fn test_should_iterate_methods() {
    let pool = build_pool();
    let svc = pool.get_service_by_name("acme.Greeter").unwrap();
    let names: Vec<String> = svc.methods().iter().map(|m| m.name().to_string()).collect();
    assert_eq!(names, vec!["SayHello", "StreamHello"]);
}

#[test]
fn test_method_should_resolve_input_output_messages() {
    let pool = build_pool();
    let svc = pool.get_service_by_name("acme.Greeter").unwrap();
    let methods = svc.methods();
    let m = &methods[0];
    assert_eq!(m.input().full_name(), "acme.HelloRequest");
    assert_eq!(m.output().full_name(), "acme.HelloReply");
    assert!(!m.is_client_streaming());
    assert!(!m.is_server_streaming());

    let stream = &methods[1];
    assert!(stream.is_client_streaming());
    assert!(stream.is_server_streaming());
}

#[test]
fn test_pool_iterates_all_services() {
    let pool = build_pool();
    let names: Vec<String> = pool.services().iter().map(|s| s.full_name().to_string()).collect();
    assert_eq!(names, vec!["acme.Greeter"]);
}

#[test]
fn test_file_lists_its_services() {
    let pool = build_pool();
    let file = pool.get_file_by_name("acme/greet.proto").unwrap();
    let names: Vec<String> = file.services().iter().map(|s| s.full_name().to_string()).collect();
    assert_eq!(names, vec!["acme.Greeter"]);
}

#[test]
fn method_full_name_and_parent() {
    let pool = build_pool();
    let svc = pool.get_service_by_name(".acme.Greeter").unwrap();
    let methods = svc.methods();
    assert_eq!(methods[1].full_name(), "acme.Greeter.StreamHello");
    assert_eq!(methods[1].parent_service().full_name(), "acme.Greeter");
    assert!(pool.get_service_by_name("acme.Missing").is_none());
}

#[test]
fn unresolved_method_input_is_rejected() {
    let mut svc_method = method("Broken", None);
    svc_method.input_type = Some(".acme.Nope".into());
    let file = FileDescriptorProto {
        name: Some("acme/broken.proto".into()),
        package: Some("acme".into()),
        message_type: vec![message("HelloReply", string_field("message", 1))],
        enum_type: vec![],
        service: vec![ServiceDescriptorProto { name: Some("Svc".into()), method: vec![svc_method] }],
        syntax: Some("proto3".into()),
    };
    assert!(DescriptorPool::from_file_descriptor_set(FileDescriptorSet { file: vec![file] }).is_err());
}

#[test]
fn service_and_method_descriptor_protos_are_their_declarations() {
    let pool = build_pool();
    let svc = pool.get_service_by_name("acme.Greeter").unwrap();
    let sp = svc.descriptor_proto().unwrap();
    assert_eq!(sp.name.as_deref(), Some("Greeter"));
    assert_eq!(sp.method.len(), 2);
    let methods = svc.methods();
    let mp = methods[1].descriptor_proto().unwrap();
    assert_eq!(mp.name.as_deref(), Some("StreamHello"));
    assert_eq!(mp.client_streaming, Some(true));
}

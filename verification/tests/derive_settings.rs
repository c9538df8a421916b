use buffa_reflect::derive_attrs::{derive_settings, DeriveAttrError, ReflectBinding};

fn pairs(p: &[(&str, &str)]) -> Vec<(String, String)> {
    p.iter().map(|(k, v)| (k.to_string(), v.to_string())).collect()
}

#[test]
fn test_should_pick_longest_message_name() {
    let attrs = pairs(&[
        ("descriptor_pool", "&*POOL"),
        ("message_name", "acme.api.v1.User"),
        ("message_name", "acme.api.v1.User.Profile"),
        ("message_name", "acme.api.v1.User"),
    ]);
    let (name, binding) = derive_settings(&attrs).ok().unwrap();
    assert_eq!(name, "acme.api.v1.User.Profile");
    assert!(matches!(binding, ReflectBinding::DescriptorPool(ref e) if e == "&*POOL"));
}

#[test]
fn test_equal_length_names_keep_the_last() {
    let attrs = pairs(&[
        ("message_name", "a.B"),
        ("message_name", "a.C"),
        ("file_descriptor_set_bytes", "&FDS_BYTES"),
    ]);
    let (name, binding) = derive_settings(&attrs).ok().unwrap();
    assert_eq!(name, "a.C");
    assert!(matches!(binding, ReflectBinding::FileDescriptorSetBytes(ref e) if e == "&FDS_BYTES"));
}

#[test]
fn test_derive_attributes_should_report_recognizable_diagnostics() {
    let e = derive_settings(&pairs(&[("descriptor_pool", "&*POOL")])).err().unwrap();
    assert!(matches!(e, DeriveAttrError::MissingMessageName));
    assert_eq!(e.message(), "missing `#[buffa_reflect(message_name = \"...\")]` attribute");
    let e = derive_settings(&pairs(&[("message_name", "a.B")])).err().unwrap();
    assert!(matches!(e, DeriveAttrError::MissingBinding));
    let e = derive_settings(&pairs(&[
        ("message_name", "a.B"),
        ("descriptor_pool", "&*POOL"),
        ("file_descriptor_set_bytes", "&B"),
    ]))
    .err()
    .unwrap();
    assert!(matches!(e, DeriveAttrError::ConflictingBindings));
    assert_eq!(
        e.message(),
        "conflicting `#[buffa_reflect(...)]` bindings: provide exactly one of `descriptor_pool` / `file_descriptor_set_bytes`"
    );
    let e = derive_settings(&pairs(&[("descriptor_pool", "a"), ("descriptor_pool", "b")])).err().unwrap();
    assert!(matches!(e, DeriveAttrError::DuplicateKey(ref k) if k == "descriptor_pool"));
    assert_eq!(e.message(), "duplicate `descriptor_pool` in `#[buffa_reflect(...)]`");
    // The unknown key is reported where it stands, before any missing name.
    let e = derive_settings(&pairs(&[("mesage_name", "a.B")])).err().unwrap();
    assert!(matches!(e, DeriveAttrError::UnknownKey(ref k) if k == "mesage_name"));
    assert_eq!(
        e.message(),
        "unknown `buffa_reflect` key `mesage_name` (expected `message_name`, `descriptor_pool`, or `file_descriptor_set_bytes`)"
    );
}

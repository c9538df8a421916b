use buffa_reflect::case::{lower_camel_to_snake, snake_to_lower_camel};
use buffa_reflect::literal::decode_c_escapes_bytes;
use buffa_reflect::pool_build::json_name_from_proto;

#[test]
fn test_lower_camel_survives_snake_and_back() {
    for s in ["userId", "Foo", "aB1c", "x", "", "HTTPServer2"] {
        assert_eq!(snake_to_lower_camel(&lower_camel_to_snake(s)), s);
    }
    assert_eq!(lower_camel_to_snake("userId"), "user_id");
    assert_eq!(lower_camel_to_snake("Foo"), "_foo");
}

#[test]
fn test_proto_snake_survives_camel_and_back() {
    for s in ["user_id", "a1_b2", "x", "foo_bar_baz", "v2_api"] {
        assert_eq!(lower_camel_to_snake(&snake_to_lower_camel(s)), s);
    }
    assert_eq!(snake_to_lower_camel("foo_bar_baz"), "fooBarBaz");
}

#[test]
fn test_json_name_agrees_with_key_conversion() {
    for s in ["user_id", "_private", "foo_bar_baz", "a__b", "x9_y"] {
        assert_eq!(json_name_from_proto(s), snake_to_lower_camel(s));
    }
    // A leading capital is kept by the pool and lowered by the key
    // conversion: the names differ there.
    assert_eq!(json_name_from_proto("Foo_bar"), "FooBar");
    assert_eq!(snake_to_lower_camel("Foo_bar"), "fooBar");
}

#[test]
fn test_c_escapes_decode_to_bytes() {
    assert_eq!(decode_c_escapes_bytes("a\\n\\t\\\\\\\"\\'").ok().unwrap(), b"a\n\t\\\"'".to_vec());
    assert_eq!(decode_c_escapes_bytes("\\000\\177\\377").ok().unwrap(), vec![0u8, 0x7f, 0xff]);
    assert_eq!(decode_c_escapes_bytes("\\x41\\101").ok().unwrap(), b"AA".to_vec());
    assert!(decode_c_escapes_bytes("\\").is_err());
    assert!(decode_c_escapes_bytes("\\q").is_err());
}

#[test]
fn test_c_escape_failures_name_the_escape() {
    let err = |s: &str| decode_c_escapes_bytes(s).err().unwrap();
    assert_eq!(err("\\"), "default string ends in `\\`");
    assert_eq!(err("a\\q"), "unknown escape `\\q`");
    assert_eq!(err("\\x"), "`\\x` with no hex digits");
    assert_eq!(err("\\u12"), "`\\u` with fewer than 4 hex digits");
    assert_eq!(err("\\U1234"), "`\\U` with fewer than 8 hex digits");
    assert_eq!(err("\\u12zz"), "`\\u` invalid hex");
    assert_eq!(err("\\U0000004g"), "`\\U` invalid hex");
    assert_eq!(err("\\u123\u{e9}"), "`\\u` non-ASCII");
    assert_eq!(err("\\u12\u{e9}"), "`\\u` invalid hex");
}

#[test]
fn escaped_bytes_are_printable_and_keep_the_prefix() {
    let mut out = String::from("s: ");
    buffa_reflect::textfmt::push_escaped(&mut out, &[b'a', b'\n', b'"', 0x01, 0xff, b'\'']);
    assert_eq!(out, "s: a\\n\\\"\\001\\377\\'");
    assert!(out.bytes().all(|b| (0x20..=0x7e).contains(&b)));
}

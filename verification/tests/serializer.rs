use jvm_serializable::java::io::bytes::{bytes_eq, push_be16, push_be32, push_be64, push_len_prefix};
use jvm_serializable::java::io::head::{copy_range, last_path_sep, push_dots_to_slashes};
use jvm_serializable::java::io::metadata::{ClassMeta, MetadataTable};
use jvm_serializable::java::io::model::{is_java_lang_object, primitive_code_of};
use jvm_serializable::java::io::{ClassDesc, FieldDesc, FieldValue, JvmSerializer, NamedValue, ObjectValue};

fn field(name: &str, declared_type: &str) -> FieldDesc {
    FieldDesc { name: name.to_string(), declared_type: declared_type.to_string() }
}

fn desc(rust: &str, java: &str, uid: u64, fields: Vec<FieldDesc>, items: Vec<ClassDesc>) -> ClassDesc {
    ClassDesc {
        rust_type_name: rust.to_string(),
        java_class_name: java.to_string(),
        serial_version_uid: uid,
        fields,
        items,
    }
}

fn named(name: &str, value_type: &str, value: FieldValue) -> NamedValue {
    NamedValue { name: name.to_string(), value_type: value_type.to_string(), value }
}

fn written(f: impl FnOnce(&mut JvmSerializer)) -> Vec<u8> {
    let mut s = JvmSerializer::new();
    f(&mut s);
    s.into_bytes()
}

#[test]
fn big_endian_encodings() {
    let mut v: Vec<u8> = Vec::new();
    push_be16(&mut v, 0x1234);
    push_be32(&mut v, 0xdeadbeef);
    push_be64(&mut v, 0x0102030405060708);
    assert_eq!(v, vec![0x12, 0x34, 0xde, 0xad, 0xbe, 0xef, 1, 2, 3, 4, 5, 6, 7, 8]);
}

#[test]
fn length_prefix_wraps_as_a_16_bit_number() {
    let mut v: Vec<u8> = Vec::new();
    push_len_prefix(&mut v, 5);
    push_len_prefix(&mut v, 0x8001);
    push_len_prefix(&mut v, 0x10003);
    assert_eq!(v, vec![0, 5, 0x80, 0x01, 0, 3]);
}

#[test]
fn primitive_values() {
    assert_eq!(written(|s| s.serialize_bool(true)), vec![1]);
    assert_eq!(written(|s| s.serialize_bool(false)), vec![0]);
    assert_eq!(written(|s| s.serialize_i8(-2)), vec![0xfe]);
    assert_eq!(written(|s| s.serialize_i16(-2)), vec![0xff, 0xfe]);
    assert_eq!(written(|s| s.serialize_i32(-2)), vec![0xff, 0xff, 0xff, 0xfe]);
    assert_eq!(written(|s| s.serialize_i64(1)), vec![0, 0, 0, 0, 0, 0, 0, 1]);
    assert_eq!(written(|s| s.serialize_u8(200)), vec![200]);
    assert_eq!(written(|s| s.serialize_u16(258)), vec![1, 2]);
    assert_eq!(written(|s| s.serialize_u32(258)), vec![0, 0, 1, 2]);
    assert_eq!(written(|s| s.serialize_u64(258)), vec![0, 0, 0, 0, 0, 0, 1, 2]);
    assert_eq!(written(|s| s.serialize_f32_bits(1.5f32.to_bits())), vec![0x3f, 0xc0, 0, 0]);
    assert_eq!(written(|s| s.serialize_f64_bits(1.0f64.to_bits())), vec![0x3f, 0xf0, 0, 0, 0, 0, 0, 0]);
    assert_eq!(written(|s| s.serialize_char('A')), vec![65]);
    assert_eq!(written(|s| s.serialize_char('\u{263A}')), vec![0x3a]);
    assert_eq!(written(|s| s.serialize_str("ab")), vec![116, 0, 2, 97, 98]);
    assert_eq!(written(|s| s.serialize_bytes(&[9, 8])), vec![9, 8]);
}

#[test]
fn serialize_value_dispatches() {
    assert_eq!(written(|s| s.serialize_value(&FieldValue::U16(7))), vec![0, 7]);
    assert_eq!(written(|s| s.serialize_value(&FieldValue::Str("é".to_string()))), vec![116, 0, 2, 0xc3, 0xa9]);
}

#[test]
fn nested_object_holds_values_back() {
    let inner = desc("app::Inner", "com.example.Inner", 9, vec![field("n", "i32"), field("s", "String")], vec![]);
    let mut s = JvmSerializer::new();
    s.build_metadata(Some(&desc("app::Outer", "com.example.Outer", 1, vec![field("inner", "Inner")], vec![inner])));
    let value = FieldValue::Object(ObjectValue {
        fields: vec![
            named("n", "i32", FieldValue::I32(3)),
            named("s", "alloc::string::String", FieldValue::Str("x".to_string())),
        ],
    });
    {
        let mut c = s.serialize_struct();
        c.serialize_field("inner", "app::Inner", &value);
        c.end();
    }
    let mut expected: Vec<u8> = vec![115, 114, 0, 17];
    expected.extend("com.example.Inner".as_bytes());
    expected.extend(vec![0, 0, 0, 0, 0, 0, 0, 9, 2, 0, 2]);
    expected.extend(vec![73, 0, 1, 110, 76, 0, 1, 115]);
    expected.extend(vec![113, 0, 126, 0, 1, 120, 112]);
    expected.extend(vec![0, 0, 0, 3, 116, 0, 1, 120]);
    assert_eq!(s.bytes(), &expected);
}

#[test]
fn unregistered_object_writes_no_header() {
    let value = FieldValue::Object(ObjectValue { fields: vec![named("n", "i32", FieldValue::I32(1))] });
    let mut s = JvmSerializer::new();
    s.write_field("u", "app::Unknown", &value);
    assert_eq!(s.bytes(), &vec![0, 0, 0, 1]);
}

#[test]
fn end_object_outside_nested_object_only_flushes() {
    let mut s = JvmSerializer::new();
    s.serialize_u8(1);
    s.end_object();
    assert_eq!(s.into_bytes(), vec![1]);
}

#[test]
fn head_with_every_type_code() {
    let d = desc(
        "app::All",
        "A",
        2,
        vec![
            field("a", "i32"),
            field("b", "u8"),
            field("c", "char"),
            field("d", "f64"),
            field("e", "f32"),
            field("f", "i64"),
            field("g", "i16"),
            field("h", "bool"),
            field("i", "String"),
            field("j", "Other"),
            field("k", "Known"),
        ],
        vec![desc("x::y::Known", "com.example.Known", 1, vec![], vec![])],
    );
    let mut s = JvmSerializer::new();
    s.build_metadata(Some(&d));
    s.write_head(&d);
    let mut expected: Vec<u8> = vec![0, 172, 237, 0, 5, 115, 114, 0, 1, 65, 0, 0, 0, 0, 0, 0, 0, 2, 2, 0, 11];
    for (code, name) in [(73u8, b'a'), (66, b'b'), (67, b'c'), (68, b'd'), (70, b'e'), (74, b'f'), (83, b'g'), (90, b'h')] {
        expected.extend(vec![code, 0, 1, name]);
    }
    expected.extend(vec![76, 0, 1, b'i', 116, 0, 18]);
    expected.extend("Ljava/lang/String;".as_bytes());
    expected.extend(vec![76, 0, 1, b'j', 116, 0, 2, 76, 59]);
    expected.extend(vec![76, 0, 1, b'k', 116, 0, 19]);
    expected.extend("Lcom/example/Known;".as_bytes());
    expected.extend(vec![120, 112]);
    assert_eq!(s.into_bytes(), expected);
}

#[test]
fn metadata_table_replaces_on_insert() {
    let mut t = MetadataTable::new();
    assert!(t.get(b"k").is_none());
    t.insert(b"k".to_vec(), ClassMeta { java_name: b"one".to_vec(), uid: 1, field_count: 0 });
    t.insert(b"k".to_vec(), ClassMeta { java_name: b"two".to_vec(), uid: 2, field_count: 3 });
    let m = t.get(b"k").unwrap();
    assert_eq!(m.java_name, b"two".to_vec());
    assert_eq!(m.uid, 2);
    assert_eq!(m.field_count, 3);
    assert!(t.get(b"other").is_none());
}

#[test]
fn path_helpers() {
    assert_eq!(last_path_sep(b"a::b::c"), 4);
    assert_eq!(last_path_sep(b"x:::y"), 2);
    assert_eq!(copy_range(b"hello", 1, 4), b"ell".to_vec());
    let mut v: Vec<u8> = vec![b'L'];
    push_dots_to_slashes(&mut v, b"a.b.c");
    assert_eq!(v, b"La/b/c".to_vec());
    assert!(bytes_eq(b"abc", b"abc"));
    assert!(!bytes_eq(b"abc", b"abd"));
    assert!(!bytes_eq(b"abc", b"ab"));
}

#[test]
fn model_helpers() {
    assert!(is_java_lang_object(b"java.lang.Object"));
    assert!(!is_java_lang_object(b"java.lang.String"));
    assert_eq!(primitive_code_of(b"i32"), Some(73));
    assert_eq!(primitive_code_of(b"bool"), Some(90));
    assert_eq!(primitive_code_of(b"String"), None);
}

#[test]
fn descriptors_follow_the_runtime_type_of_the_value() {
    // Inside a nested object an `i32` and a `String` get descriptors; a string
    // value of another type, or an integer of another type, gets none.
    let inner = desc("app::Inner", "I", 9, vec![], vec![]);
    let mut s = JvmSerializer::new();
    s.build_metadata(Some(&desc("app::Outer", "O", 1, vec![], vec![inner])));
    let value = FieldValue::Object(ObjectValue {
        fields: vec![
            named("b", "alloc::boxed::Box<str>", FieldValue::Str("x".to_string())),
            named("s", "alloc::string::String", FieldValue::Str("y".to_string())),
            named("n", "i64", FieldValue::I32(2)),
            named("m", "i32", FieldValue::I32(3)),
        ],
    });
    s.write_field("inner", "app::Inner", &value);
    let mut expected: Vec<u8> = vec![115, 114, 0, 1, b'I', 0, 0, 0, 0, 0, 0, 0, 9, 2, 0, 0];
    expected.extend(vec![76, 0, 1, b's', 73, 0, 1, b'm']);
    expected.extend(vec![113, 0, 126, 0, 1, 120, 112]);
    expected.extend(vec![116, 0, 1, b'x', 116, 0, 1, b'y', 0, 0, 0, 2, 0, 0, 0, 3]);
    assert_eq!(s.into_bytes(), expected);
}

#[test]
fn a_registered_type_marks_a_nested_object_whatever_the_value() {
    // The class table is looked up by the value's type path alone.
    let mut s = JvmSerializer::new();
    s.build_metadata(Some(&desc("app::Outer", "O", 1, vec![], vec![desc("app::Id", "J", 4, vec![], vec![])])));
    s.write_field("id", "app::Id", &FieldValue::I32(7));
    s.end_object();
    let mut expected: Vec<u8> = vec![115, 114, 0, 1, b'J', 0, 0, 0, 0, 0, 0, 0, 4, 2, 0, 0];
    expected.extend(vec![113, 0, 126, 0, 1, 120, 112, 0, 0, 0, 7]);
    assert_eq!(s.into_bytes(), expected);
}

#[test]
fn writing_keeps_what_was_written() {
    let mut s = JvmSerializer::new();
    s.serialize_u32(0xa0b0c0d0);
    let before = s.bytes().clone();
    s.write_field(
        "o",
        "m::T",
        &FieldValue::Object(ObjectValue {
            fields: vec![named("s", "alloc::string::String", FieldValue::Str("q".to_string()))],
        }),
    );
    let after = s.into_bytes();
    assert!(after.len() > before.len());
    assert_eq!(&after[..before.len()], &before[..]);
}

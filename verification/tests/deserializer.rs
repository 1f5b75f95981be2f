use jvm_serializable::java::io::{ClassDesc, Error, FieldDesc, JvmSerializer, Shape, Value};

fn head_of(fields: &[(u8, &str, Option<&str>)]) -> Vec<u8> {
    let mut v: Vec<u8> = vec![0, 172, 237, 0, 5, 115, 114, 0, 1, b'C', 0, 0, 0, 0, 0, 0, 0, 1, 2];
    v.extend(vec![0, fields.len() as u8]);
    for (code, name, ty) in fields {
        v.push(*code);
        v.extend(vec![0, name.len() as u8]);
        v.extend(name.as_bytes());
        if let Some(t) = ty {
            v.push(116);
            v.extend(vec![0, t.len() as u8]);
            v.extend(t.as_bytes());
        }
    }
    v.extend(vec![120, 112]);
    v
}

#[test]
fn read_head_then_values() {
    let mut data = head_of(&[(73, "n", None), (76, "s", Some("Ljava/lang/String;"))]);
    data.extend(vec![0xff, 0xff, 0xff, 0xfe, 116, 0, 2, b'h', b'i']);
    let mut r = JvmSerializer::reader(data);
    assert!(r.can_read_head());
    r.read_head();
    assert!(r.can_read_i32());
    assert_eq!(r.deserialize_i32(), -2);
    assert!(r.can_read_string());
    assert_eq!(r.deserialize_string(), "hi".to_string());
    assert!(!r.can_read_i32());
}

#[test]
fn negative_field_count_means_no_descriptors() {
    let mut data: Vec<u8> = vec![0, 172, 237, 0, 5, 115, 114, 0, 0, 0, 0, 0, 0, 0, 0, 0, 0, 2, 0xff, 0xff, 120, 112];
    data.extend(vec![0, 0, 0, 7]);
    let mut r = JvmSerializer::reader(data);
    r.read_head();
    assert_eq!(r.deserialize_i32(), 7);
}

#[test]
fn short_head_cannot_be_read() {
    // The class name's length says 9, but one byte follows.
    let r = JvmSerializer::reader(vec![0, 172, 237, 0, 5, 115, 114, 0, 9, b'x']);
    assert!(!r.can_read_head());
    let r = JvmSerializer::reader(vec![0, 172, 237, 0, 5]);
    assert!(!r.can_read_head());
}

#[test]
fn head_bytes_before_the_field_count_are_not_checked() {
    // Magic, class name, serial version UID and flags are skipped unread.
    let mut data: Vec<u8> = vec![9, 9, 9, 9, 9, 9, 9, 0, 1, b'?', 1, 2, 3, 4, 5, 6, 7, 8, 99, 0, 0, 120, 112];
    data.extend(vec![0, 0, 0, 5]);
    let mut r = JvmSerializer::reader(data);
    r.read_head();
    assert_eq!(r.deserialize_i32(), 5);
}

#[test]
fn negative_string_length_cannot_be_read() {
    let r = JvmSerializer::reader(vec![116, 0x80, 0, b'a']);
    assert!(!r.can_read_string());
    let mut r = JvmSerializer::reader(vec![116, 0, 1, b'a']);
    assert!(r.can_read_string());
    assert_eq!(r.deserialize_string(), "a".to_string());
}

#[test]
fn any_tag_byte_before_a_string_is_skipped() {
    let mut r = JvmSerializer::reader(vec![0, 0, 2, b'o', b'k']);
    assert_eq!(r.deserialize_string(), "ok".to_string());
}

#[test]
fn invalid_utf8_is_replaced() {
    let mut r = JvmSerializer::reader(vec![116, 0, 2, 0xff, b'a']);
    assert_eq!(r.deserialize_string(), "\u{FFFD}a".to_string());
}

#[test]
fn struct_with_header_skips_descriptors() {
    let mut data: Vec<u8> = vec![115, 114, 0, 1, b'C', 0, 0, 0, 0, 0, 0, 0, 5, 2, 0, 2];
    data.extend(vec![73, 0, 1, b'a', 76, 0, 1, b'b', 113, 0, 126, 0, 1, 120, 112]);
    data.extend(vec![0, 0, 1, 0, 116, 0, 1, b'z']);
    let mut r = JvmSerializer::reader(data);
    let v = r.deserialize_struct(&vec![Shape::I32, Shape::Str]);
    assert_eq!(v, vec![Value::I32(256), Value::Str("z".to_string())]);
}

#[test]
fn struct_without_header_reads_values() {
    let mut r = JvmSerializer::reader(vec![0, 0, 0, 1, 0, 0, 0, 2]);
    let shape = Shape::Object(vec![Shape::I32, Shape::I32]);
    assert!(r.can_read_value(&shape));
    let v = r.deserialize_value(&shape);
    assert_eq!(v, Value::Object(vec![Value::I32(1), Value::I32(2)]));
}

#[test]
fn tuple_reads_in_order_and_not_past_the_end() {
    let mut r = JvmSerializer::reader(vec![0, 0, 0, 1, 116, 0, 0]);
    let shapes = vec![Shape::I32, Shape::Str];
    assert!(r.can_read_tuple(&shapes));
    let v = r.deserialize_tuple(&shapes);
    assert_eq!(v, vec![Value::I32(1), Value::Str(String::new())]);
    let r = JvmSerializer::reader(vec![0, 0, 0, 1, 0, 0]);
    assert!(!r.can_read_tuple(&vec![Shape::I32, Shape::I32]));
}

#[test]
fn struct_at_end_of_input_cannot_be_read() {
    let r = JvmSerializer::reader(vec![]);
    assert!(!r.can_read_value(&Shape::Object(vec![])));
    assert!(!r.can_read_struct_header(0));
}

#[test]
fn error_is_placed_by_byte_offset() {
    let e = Error::at(12);
    assert_eq!(e.line(), 0);
    assert_eq!(e.column(), 12);
}

#[test]
fn written_values_read_back() {
    let mut w = JvmSerializer::new();
    w.serialize_i32(-123456);
    w.serialize_str("grüße");
    let mut r = JvmSerializer::reader(w.into_bytes());
    assert_eq!(r.deserialize_i32(), -123456);
    assert_eq!(r.deserialize_string(), "grüße".to_string());
}

#[test]
fn written_head_is_skipped() {
    let d = ClassDesc {
        rust_type_name: "app::P".to_string(),
        java_class_name: "com.example.P".to_string(),
        serial_version_uid: 77,
        fields: vec![
            FieldDesc { name: "x".to_string(), declared_type: "i32".to_string() },
            FieldDesc { name: "s".to_string(), declared_type: "String".to_string() },
        ],
        items: vec![],
    };
    let mut w = JvmSerializer::new();
    w.build_metadata(Some(&d));
    w.write_head(&d);
    w.serialize_i32(9);
    let mut r = JvmSerializer::reader(w.into_bytes());
    assert!(r.can_read());
    assert!(r.can_read_head());
    r.read_head();
    assert_eq!(r.deserialize_i32(), 9);
}

#[test]
fn struct_header_only() {
    let mut data: Vec<u8> = vec![115, 114, 0, 1, b'C', 0, 0, 0, 0, 0, 0, 0, 5, 2, 0, 1];
    data.extend(vec![73, 0, 1, b'a', 113, 0, 126, 0, 1, 120, 112, 0, 0, 0, 4]);
    let mut r = JvmSerializer::reader(data);
    assert!(r.can_read_struct_header(1));
    r.deserialize_struct_header(1);
    assert_eq!(r.deserialize_i32(), 4);
    let mut r = JvmSerializer::reader(vec![0, 0, 0, 4]);
    assert!(r.can_read_struct_header(1));
    r.deserialize_struct_header(1);
    assert_eq!(r.deserialize_i32(), 4);
}

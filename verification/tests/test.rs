use jvm_serializable::java::io::{
    ClassDesc, FieldDesc, FieldValue, NamedValue, ObjectInputStream, ObjectOutputStream,
    ObjectValue, Shape, Value,
};

fn field(name: &str, declared_type: &str) -> FieldDesc {
    FieldDesc { name: name.to_string(), declared_type: declared_type.to_string() }
}

/// A field holding an `i32` or a `String`, with the type path the run time reports for it.
fn named(name: &str, value: FieldValue) -> NamedValue {
    let value_type = match &value {
        FieldValue::I32(_) => "i32",
        FieldValue::Str(_) => "alloc::string::String",
        _ => unreachable!(),
    };
    NamedValue { name: name.to_string(), value_type: value_type.to_string(), value }
}

/// A field holding an object of the type at `path`.
fn nested(name: &str, path: &str, fields: Vec<NamedValue>) -> NamedValue {
    NamedValue {
        name: name.to_string(),
        value_type: path.to_string(),
        value: FieldValue::Object(ObjectValue { fields }),
    }
}

fn server_id_desc() -> ClassDesc {
    ClassDesc {
        rust_type_name: "test::tests::ServerID".to_string(),
        java_class_name: "io.vertx.core.net.impl.ServerID".to_string(),
        serial_version_uid: 5636540499169644934,
        fields: vec![field("port", "i32"), field("host", "String")],
        items: vec![],
    }
}

fn cluster_node_info_desc() -> ClassDesc {
    ClassDesc {
        rust_type_name: "test::tests::ClusterNodeInfo".to_string(),
        java_class_name: "io.vertx.core.eventbus.impl.clustered.ClusterNodeInfo".to_string(),
        serial_version_uid: 1,
        fields: vec![field("nodeId", "String"), field("serverID", "ServerID")],
        items: vec![server_id_desc()],
    }
}

fn cluster_node_info(node_id: &str, port: i32, host: &str) -> ObjectValue {
    ObjectValue {
        fields: vec![
            named("nodeId", FieldValue::Str(node_id.to_string())),
            nested(
                "serverID",
                "test::tests::ServerID",
                vec![named("port", FieldValue::I32(port)), named("host", FieldValue::Str(host.to_string()))],
            ),
        ],
    }
}

fn cluster_node_info_shape() -> Shape {
    Shape::Object(vec![Shape::Str, Shape::Object(vec![Shape::I32, Shape::Str])])
}

fn object_desc() -> ClassDesc {
    ClassDesc {
        rust_type_name: "test::tests::Object".to_string(),
        java_class_name: "java.lang.Object".to_string(),
        serial_version_uid: 0,
        fields: vec![field("key", "String"), field("value", "String")],
        items: vec![],
    }
}

fn zk_key_value_desc() -> ClassDesc {
    ClassDesc {
        rust_type_name: "test::tests::ZKSyncMapKeyValue".to_string(),
        java_class_name: "io.vertx.spi.cluster.zookeeper.impl.ZKSyncMap$KeyValue".to_string(),
        serial_version_uid: 6529685098267757690,
        fields: vec![field("key", "Object")],
        items: vec![object_desc()],
    }
}

fn zk_key_value(key: &str, value: &str) -> ObjectValue {
    ObjectValue {
        fields: vec![nested(
            "key",
            "test::tests::Object",
            vec![named("key", FieldValue::Str(key.to_string())), named("value", FieldValue::Str(value.to_string()))],
        )],
    }
}

const ZK_VALUE: &str =
    "{\"verticles\":[],\"group\":\"__DISABLED__\",\"server_id\":{\"host\":\"localhost\",\"port\":41469}}";

#[test]
fn it_works() {
    for _i in 0..10 {
        let mut oos = ObjectOutputStream::new();
        let node_id = cluster_node_info("fce2f0d9-4db9-4eba-b044-a061ba4e5743", 46511, "localhost");
        oos.write_object(&cluster_node_info_desc(), &node_id);

        let mut ois = ObjectInputStream::new();
        let node = ois.read_object(oos.to_byte_array(), &cluster_node_info_shape());
        println!("{:?}", node);
        assert_eq!(
            node,
            Value::Object(vec![
                Value::Str("fce2f0d9-4db9-4eba-b044-a061ba4e5743".to_string()),
                Value::Object(vec![Value::I32(46511), Value::Str("localhost".to_string())]),
            ])
        );

        let kv = zk_key_value("0e4b0367-c5e6-4559-9284-282f27349de7", ZK_VALUE);
        let mut oos = ObjectOutputStream::new();
        oos.write_object(&zk_key_value_desc(), &kv);
        println!("{:?}", String::from_utf8_lossy(&oos.to_byte_array()));
    }
}

fn str_bytes(s: &str) -> Vec<u8> {
    s.as_bytes().to_vec()
}

#[test]
fn cluster_node_info_bytes() {
    let mut expected: Vec<u8> = vec![0, 172, 237, 0, 5, 115, 114, 0, 53];
    expected.extend(str_bytes("io.vertx.core.eventbus.impl.clustered.ClusterNodeInfo"));
    expected.extend(vec![0, 0, 0, 0, 0, 0, 0, 1, 2, 0, 2, 76, 0, 6]);
    expected.extend(str_bytes("nodeId"));
    expected.extend(vec![116, 0, 18]);
    expected.extend(str_bytes("Ljava/lang/String;"));
    expected.extend(vec![76, 0, 8]);
    expected.extend(str_bytes("serverID"));
    expected.extend(vec![116, 0, 33]);
    expected.extend(str_bytes("Lio/vertx/core/net/impl/ServerID;"));
    expected.extend(vec![120, 112, 116, 0, 36]);
    expected.extend(str_bytes("fce2f0d9-4db9-4eba-b044-a061ba4e5743"));
    expected.extend(vec![115, 114, 0, 31]);
    expected.extend(str_bytes("io.vertx.core.net.impl.ServerID"));
    expected.extend(vec![78, 57, 3, 184, 103, 28, 17, 134, 2, 0, 2, 73, 0, 4]);
    expected.extend(str_bytes("port"));
    expected.extend(vec![76, 0, 4]);
    expected.extend(str_bytes("host"));
    expected.extend(vec![113, 0, 126, 0, 1, 120, 112, 0, 0, 181, 175, 116, 0, 9]);
    expected.extend(str_bytes("localhost"));

    let mut oos = ObjectOutputStream::new();
    let node_id = cluster_node_info("fce2f0d9-4db9-4eba-b044-a061ba4e5743", 46511, "localhost");
    oos.write_object(&cluster_node_info_desc(), &node_id);
    assert_eq!(oos.to_byte_array(), expected);
}

#[test]
fn java_lang_object_field_bytes() {
    let mut expected: Vec<u8> = vec![0, 172, 237, 0, 5, 115, 114, 0, 54];
    expected.extend(str_bytes("io.vertx.spi.cluster.zookeeper.impl.ZKSyncMap$KeyValue"));
    expected.extend(vec![90, 158, 26, 0, 73, 105, 76, 122, 2, 0, 1, 76, 0, 3]);
    expected.extend(str_bytes("key"));
    expected.extend(vec![116, 0, 18]);
    expected.extend(str_bytes("Ljava/lang/Object;"));
    // no end of block data after the descriptors: the field is a java.lang.Object
    expected.extend(vec![76, 0, 5]);
    expected.extend(str_bytes("value"));
    expected.extend(vec![113, 0, 126, 0, 1, 120, 112, 116, 0, 36]);
    expected.extend(str_bytes("0e4b0367-c5e6-4559-9284-282f27349de7"));
    expected.extend(vec![116, 0, 85]);
    expected.extend(str_bytes(ZK_VALUE));

    let kv = zk_key_value("0e4b0367-c5e6-4559-9284-282f27349de7", ZK_VALUE);
    let mut oos = ObjectOutputStream::new();
    oos.write_object0(&zk_key_value_desc(), &kv);
    assert_eq!(oos.to_byte_array(), expected);
}

#[test]
fn writing_again_replaces_the_bytes() {
    let mut oos = ObjectOutputStream::new();
    assert!(oos.to_byte_array().is_empty());
    oos.write_object(&cluster_node_info_desc(), &cluster_node_info("a", 1, "b"));
    let first = oos.to_byte_array();
    oos.write_object(&cluster_node_info_desc(), &cluster_node_info("a", 1, "b"));
    assert_eq!(oos.to_byte_array(), first);
}

#[test]
fn round_trip_with_int_first() {
    let desc = ClassDesc {
        rust_type_name: "app::Point".to_string(),
        java_class_name: "com.example.Point".to_string(),
        serial_version_uid: 42,
        fields: vec![field("x", "i32"), field("label", "String"), field("y", "i32")],
        items: vec![],
    };
    let obj = ObjectValue {
        fields: vec![
            named("x", FieldValue::I32(-7)),
            named("label", FieldValue::Str("héllo wörld".to_string())),
            named("y", FieldValue::I32(i32::MIN)),
        ],
    };
    let mut oos = ObjectOutputStream::new();
    oos.write_object(&desc, &obj);
    let mut ois = ObjectInputStream::new();
    let v = ois.read_object(oos.to_byte_array(), &Shape::Object(vec![Shape::I32, Shape::Str, Shape::I32]));
    assert_eq!(
        v,
        Value::Object(vec![
            Value::I32(-7),
            Value::Str("héllo wörld".to_string()),
            Value::I32(i32::MIN)
        ])
    );
}

#[test]
fn first_int_starting_with_tc_object_is_misread() {
    // 0x73 is TC_OBJECT: a reader takes the first value for a nested header.
    let desc = ClassDesc {
        rust_type_name: "app::Counter".to_string(),
        java_class_name: "com.example.Counter".to_string(),
        serial_version_uid: 3,
        fields: vec![field("n", "i32")],
        items: vec![],
    };
    let obj = ObjectValue {
        fields: vec![named("n", FieldValue::I32(0x7300_0001))],
    };
    let mut oos = ObjectOutputStream::new();
    oos.write_object(&desc, &obj);
    let ois = ObjectInputStream::new();
    assert!(!ois.can_read_object(&oos.to_byte_array(), &Shape::Object(vec![Shape::I32])));
}

#[test]
fn empty_or_short_input_cannot_be_read() {
    let ois = ObjectInputStream::new();
    assert!(!ois.can_read_object(&vec![], &cluster_node_info_shape()));
    assert!(!ois.can_read_object(&vec![0, 172, 237, 0, 5], &cluster_node_info_shape()));
}

#[test]
fn truncated_input_cannot_be_read() {
    let mut oos = ObjectOutputStream::new();
    oos.write_object(&cluster_node_info_desc(), &cluster_node_info("id", 5, "host"));
    let mut bytes = oos.to_byte_array();
    let ois = ObjectInputStream::new();
    assert!(ois.can_read_object(&bytes, &cluster_node_info_shape()));
    bytes.pop();
    assert!(!ois.can_read_object(&bytes, &cluster_node_info_shape()));
}

#[test]
fn every_stream_starts_with_the_magic() {
    let mut oos = ObjectOutputStream::new();
    oos.write_object(&zk_key_value_desc(), &zk_key_value("k", "v"));
    assert_eq!(&oos.to_byte_array()[..7], &[0, 172, 237, 0, 5, 115, 114]);
}

#[test]
fn a_boxed_str_field_of_a_nested_object_gets_no_descriptor() {
    // Only a value of type `alloc::string::String` gets an `L` descriptor.
    let mut oos = ObjectOutputStream::new();
    let obj = ObjectValue {
        fields: vec![
            named("nodeId", FieldValue::Str("n".to_string())),
            nested(
                "serverID",
                "test::tests::ServerID",
                vec![
                    named("port", FieldValue::I32(1)),
                    NamedValue {
                        name: "host".to_string(),
                        value_type: "alloc::boxed::Box<str>".to_string(),
                        value: FieldValue::Str("h".to_string()),
                    },
                ],
            ),
        ],
    };
    oos.write_object(&cluster_node_info_desc(), &obj);
    let bytes = oos.to_byte_array();
    let mut tail: Vec<u8> = vec![2, 0, 2, 73, 0, 4];
    tail.extend(str_bytes("port"));
    tail.extend(vec![113, 0, 126, 0, 1, 120, 112, 0, 0, 0, 1, 116, 0, 1, b'h']);
    assert!(bytes.ends_with(&tail));
}

#[test]
fn round_trip_with_nested_object_first() {
    // The nested object has as many fields as the top object: its header is
    // read in place of the top object's, and the values still come back.
    let pair = desc_of("app::Pair", "com.example.Pair", 11, vec![field("a", "i32"), field("b", "String")]);
    let desc = ClassDesc {
        rust_type_name: "app::Wrapper".to_string(),
        java_class_name: "com.example.Wrapper".to_string(),
        serial_version_uid: 12,
        fields: vec![field("inner", "Pair"), field("c", "i32")],
        items: vec![pair],
    };
    let obj = ObjectValue {
        fields: vec![
            nested(
                "inner",
                "app::Pair",
                vec![named("a", FieldValue::I32(5)), named("b", FieldValue::Str("bee".to_string()))],
            ),
            named("c", FieldValue::I32(-1)),
        ],
    };
    let mut oos = ObjectOutputStream::new();
    oos.write_object(&desc, &obj);
    let shape = Shape::Object(vec![Shape::Object(vec![Shape::I32, Shape::Str]), Shape::I32]);
    let mut ois = ObjectInputStream::new();
    let v = ois.read_object(oos.to_byte_array(), &shape);
    assert_eq!(
        v,
        Value::Object(vec![
            Value::Object(vec![Value::I32(5), Value::Str("bee".to_string())]),
            Value::I32(-1)
        ])
    );
}

fn desc_of(rust: &str, java: &str, uid: u64, fields: Vec<FieldDesc>) -> ClassDesc {
    ClassDesc {
        rust_type_name: rust.to_string(),
        java_class_name: java.to_string(),
        serial_version_uid: uid,
        fields,
        items: vec![],
    }
}

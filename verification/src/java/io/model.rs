//! Plain values for what the stream format writes and reads.
use vstd::prelude::*;
use vstd::utf8::encode_utf8;

verus! {

/// What a class's `Serializable` impl reports: its Rust path (as the run time
/// reports it), its Java class name, its serial version UID, its declared
/// fields, and the descriptions of the nested objects it hands out as items.
#[derive(Debug, PartialEq)]
pub struct ClassDesc {
    pub rust_type_name: String,
    pub java_class_name: String,
    pub serial_version_uid: u64,
    pub fields: Vec<FieldDesc>,
    pub items: Vec<ClassDesc>,
}

/// A declared field: its name and its Rust type as written in the struct
/// (such as `i32`, `String` or `ServerID`).
#[derive(Debug, PartialEq)]
pub struct FieldDesc {
    pub name: String,
    pub declared_type: String,
}

/// An object's data as its serialization hands it over: its named field
/// values, in order.
#[derive(Debug, PartialEq)]
pub struct ObjectValue {
    pub fields: Vec<NamedValue>,
}

/// A field as its serialization hands it over: its name, the Rust path that
/// the run time reports for the type of its value (such as `i32`,
/// `alloc::string::String`, `alloc::boxed::Box<str>` or `app::Point`), and
/// its value.
#[derive(Debug, PartialEq)]
pub struct NamedValue {
    pub name: String,
    pub value_type: String,
    pub value: FieldValue,
}

/// The value of a field. Floating-point values are carried by their IEEE 754 bits.
#[derive(Debug, PartialEq)]
pub enum FieldValue {
    Bool(bool),
    I8(i8),
    I16(i16),
    I32(i32),
    I64(i64),
    U8(u8),
    U16(u16),
    U32(u32),
    U64(u64),
    F32Bits(u32),
    F64Bits(u64),
    Char(char),
    Str(String),
    Object(ObjectValue),
}

/// The UTF-8 bytes of a string.
pub open spec fn utf8(s: String) -> Seq<u8> {
    encode_utf8(s@)
}

/// The bytes of `java.lang.Object`.
pub open spec fn java_lang_object() -> Seq<u8> {
    seq![106u8, 97, 118, 97, 46, 108, 97, 110, 103, 46, 79, 98, 106, 101, 99, 116]
}

/// The bytes of `Ljava/lang/String;`.
pub open spec fn java_string_descriptor() -> Seq<u8> {
    seq![76u8, 106, 97, 118, 97, 47, 108, 97, 110, 103, 47, 83, 116, 114, 105, 110, 103, 59]
}

/// The bytes of `i32`.
pub open spec fn name_i32() -> Seq<u8> {
    seq![105u8, 51, 50]
}

/// The bytes of `alloc::string::String`.
pub open spec fn name_string_path() -> Seq<u8> {
    seq![97u8, 108, 108, 111, 99, 58, 58, 115, 116, 114, 105, 110, 103, 58, 58, 83, 116, 114, 105, 110, 103]
}

/// The one-letter Java type code of a declared field type, for the primitive
/// types that have one: `i32` `I`, `u8` `B`, `char` `C`, `f64` `D`, `f32` `F`,
/// `i64` `J`, `i16` `S`, `bool` `Z`; any other type is written as an object (`L`).
pub open spec fn primitive_code(t: Seq<u8>) -> Option<u8> {
    if t == name_i32() {
        Some(73u8)
    } else if t == seq![117u8, 56] {
        Some(66u8)
    } else if t == seq![99u8, 104, 97, 114] {
        Some(67u8)
    } else if t == seq![102u8, 54, 52] {
        Some(68u8)
    } else if t == seq![102u8, 51, 50] {
        Some(70u8)
    } else if t == seq![105u8, 54, 52] {
        Some(74u8)
    } else if t == seq![105u8, 49, 54] {
        Some(83u8)
    } else if t == seq![98u8, 111, 111, 108] {
        Some(90u8)
    } else {
        None
    }
}

/// The bytes of `String`, the declared type of a string field.
pub open spec fn name_string() -> Seq<u8> {
    seq![83u8, 116, 114, 105, 110, 103]
}

/// What a reader is asked for: the shape of the type being read back.
#[derive(Debug, PartialEq)]
pub enum Shape {
    I32,
    Str,
    Object(Vec<Shape>),
}

/// What a reader gives back.
#[derive(Debug, PartialEq)]
pub enum Value {
    I32(i32),
    Str(String),
    Object(Vec<Value>),
}

/// The mathematical form of a `Shape`.
pub enum ShapeModel {
    I32,
    Str,
    Object(Seq<ShapeModel>),
}

/// The mathematical form of a `Value`.
pub enum Data {
    I32(i32),
    Str(Seq<char>),
    Object(Seq<Data>),
}

impl View for Shape {
    type V = ShapeModel;

    open spec fn view(&self) -> ShapeModel
        decreases self,
    {
        match self {
            Shape::I32 => ShapeModel::I32,
            Shape::Str => ShapeModel::Str,
            Shape::Object(items) => ShapeModel::Object(
                Seq::new(
                    items@.len(),
                    |i: int|
                        if 0 <= i < items@.len() {
                            items@[i].view()
                        } else {
                            ShapeModel::I32
                        },
                ),
            ),
        }
    }
}

/// The data of a value.
pub open spec fn value_data(v: Value) -> Data
    decreases v, 1int,
{
    match v {
        Value::I32(x) => Data::I32(x),
        Value::Str(s) => Data::Str(s@),
        Value::Object(items) => Data::Object(values_data(items@)),
    }
}

/// The data of a list of values.
pub open spec fn values_data(vs: Seq<Value>) -> Seq<Data>
    decreases vs, 0int,
{
    if vs.len() == 0 {
        Seq::empty()
    } else {
        values_data(vs.drop_last()).push(value_data(vs.last()))
    }
}

impl View for Value {
    type V = Data;

    open spec fn view(&self) -> Data {
        value_data(*self)
    }
}

/// The bytes of `s`.
pub fn string_bytes(s: &String) -> (b: &[u8])
    ensures
        b@ == utf8(*s),
{
    s.as_str().as_bytes()
}

/// A copy of the bytes of `s`.
pub fn string_bytes_vec(s: &String) -> (b: Vec<u8>)
    ensures
        b@ == utf8(*s),
{
    let mut out: Vec<u8> = Vec::new();
    crate::java::io::bytes::push_all(&mut out, string_bytes(s));
    out
}

/// Whether `b` spells `java.lang.Object`.
pub fn is_java_lang_object(b: &[u8]) -> (r: bool)
    ensures
        r == (b@ == java_lang_object()),
{
    let r = b.len() == 16 && b[0] == 106 && b[1] == 97 && b[2] == 118 && b[3] == 97 && b[4] == 46
        && b[5] == 108 && b[6] == 97 && b[7] == 110 && b[8] == 103 && b[9] == 46 && b[10] == 79
        && b[11] == 98 && b[12] == 106 && b[13] == 101 && b[14] == 99 && b[15] == 116;
    assert(r ==> b@ =~= java_lang_object());
    r
}

/// The Java type code of a declared field type (see `primitive_code`).
pub fn primitive_code_of(t: &[u8]) -> (r: Option<u8>)
    ensures
        r == primitive_code(t@),
{
    let n = t.len();
    if n == 3 && t[0] == 105 && t[1] == 51 && t[2] == 50 {
        assert(t@ =~= name_i32());
        Some(73u8)
    } else if n == 2 && t[0] == 117 && t[1] == 56 {
        assert(t@ =~= seq![117u8, 56]);
        Some(66u8)
    } else if n == 4 && t[0] == 99 && t[1] == 104 && t[2] == 97 && t[3] == 114 {
        assert(t@ =~= seq![99u8, 104, 97, 114]);
        Some(67u8)
    } else if n == 3 && t[0] == 102 && t[1] == 54 && t[2] == 52 {
        assert(t@ =~= seq![102u8, 54, 52]);
        Some(68u8)
    } else if n == 3 && t[0] == 102 && t[1] == 51 && t[2] == 50 {
        assert(t@ =~= seq![102u8, 51, 50]);
        Some(70u8)
    } else if n == 3 && t[0] == 105 && t[1] == 54 && t[2] == 52 {
        assert(t@ =~= seq![105u8, 54, 52]);
        Some(74u8)
    } else if n == 3 && t[0] == 105 && t[1] == 49 && t[2] == 54 {
        assert(t@ =~= seq![105u8, 49, 54]);
        Some(83u8)
    } else if n == 4 && t[0] == 98 && t[1] == 111 && t[2] == 111 && t[3] == 108 {
        assert(t@ =~= seq![98u8, 111, 111, 108]);
        Some(90u8)
    } else {
        None
    }
}

/// Whether `t` spells `String`.
pub fn is_string_type(t: &[u8]) -> (r: bool)
    ensures
        r == (t@ == name_string()),
{
    let r = t.len() == 6 && t[0] == 83 && t[1] == 116 && t[2] == 114 && t[3] == 105 && t[4] == 110
        && t[5] == 103;
    assert(r ==> t@ =~= name_string());
    r
}

} // verus!

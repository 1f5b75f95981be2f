//! The writing half of the serializer: a state machine over the output buffer.
use vstd::prelude::*;
use vstd::string::StringSliceAdditionalSpecFns;
use crate::java::io::bytes::{
    be16, be32, be64, be_value, lemma_be16_value, lemma_be32_value, lemma_be64_value, len_prefix,
    push_all, push_be16, push_be32, push_be64, push_len_prefix,
};
use crate::java::io::metadata::{ClassMeta, ClassMetaView, MetadataTable};
use crate::java::io::model::{
    is_java_lang_object, java_lang_object, name_i32, name_string_path, utf8, FieldValue,
    NamedValue,
};

verus! {

/// The abstract state of a serializer.
#[verifier::ext_equal]
pub struct JvmState {
    /// What has been written so far.
    pub buf: Seq<u8>,
    /// Whether the fields of a nested object are being written.
    pub inner: bool,
    /// Values of a nested object, held back until its descriptors are out.
    pub value_buf: Seq<u8>,
    /// Whether the head declared a field of class `java.lang.Object`.
    pub inner_is_object: bool,
    /// Class descriptions by Rust type name.
    pub metadata: Map<Seq<u8>, ClassMetaView>,
    /// Where reading goes on.
    pub read_idx: nat,
}

/// Writes and reads the Java serialization stream format.
pub struct JvmSerializer {
    pub(crate) buf: Vec<u8>,
    pub(crate) inner: bool,
    pub(crate) value_buf: Vec<u8>,
    pub(crate) inner_is_object: bool,
    pub(crate) metadata_structs: MetadataTable,
    pub(crate) read_idx: usize,
}

impl View for JvmSerializer {
    type V = JvmState;

    closed spec fn view(&self) -> JvmState {
        JvmState {
            buf: self.buf@,
            inner: self.inner,
            value_buf: self.value_buf@,
            inner_is_object: self.inner_is_object,
            metadata: self.metadata_structs@,
            read_idx: self.read_idx as nat,
        }
    }
}

/// The state of a fresh serializer over `buf`.
pub open spec fn fresh_state(buf: Seq<u8>) -> JvmState {
    JvmState {
        buf,
        inner: false,
        value_buf: Seq::empty(),
        inner_is_object: false,
        metadata: Map::empty(),
        read_idx: 0,
    }
}

/// `bytes` appended to the output.
pub open spec fn append_out(s: JvmState, bytes: Seq<u8>) -> JvmState {
    JvmState { buf: s.buf + bytes, ..s }
}

/// `bytes` appended to the held-back values inside a nested object, else to the output.
pub open spec fn append_value(s: JvmState, bytes: Seq<u8>) -> JvmState {
    if s.inner {
        JvmState { value_buf: s.value_buf + bytes, ..s }
    } else {
        append_out(s, bytes)
    }
}

/// A string as written: the tag 116 (`TC_STRING`), its length, its bytes.
pub open spec fn string_record(b: Seq<u8>) -> Seq<u8> {
    seq![116u8] + len_prefix(b.len()) + b
}

/// The header that opens a nested object of the described class.
pub open spec fn object_header(m: ClassMetaView) -> Seq<u8> {
    seq![115u8, 114u8] + len_prefix(m.java_name.len()) + m.java_name + be64(m.uid) + seq![2u8]
        + be16(m.field_count)
}

/// A field descriptor: a type code, then the field's name.
pub open spec fn field_descriptor(code: u8, name: Seq<u8>) -> Seq<u8> {
    seq![code] + len_prefix(name.len()) + name
}

/// The bytes that close a nested object's descriptors: a back reference
/// (`TC_REFERENCE`, handle `0x7e0001`), `TC_ENDBLOCKDATA` and `TC_NULL`.
pub open spec fn object_trailer() -> Seq<u8> {
    seq![113u8, 0, 126, 0, 1, 120, 112]
}

/// Writing one value: a primitive goes to the output big-endian, except that
/// an `i32` or a string inside a nested object is held back; an object
/// writes its fields, then its end.
pub open spec fn ser_value(s: JvmState, v: FieldValue) -> JvmState
    decreases v, 1int,
{
    match v {
        FieldValue::Bool(b) => append_out(s, seq![if b { 1u8 } else { 0u8 }]),
        FieldValue::I8(x) => append_out(s, seq![x as u8]),
        FieldValue::I16(x) => append_out(s, be16(x as u16)),
        FieldValue::I32(x) => append_value(s, be32(x as u32)),
        FieldValue::I64(x) => append_out(s, be64(x as u64)),
        FieldValue::U8(x) => append_out(s, seq![x]),
        FieldValue::U16(x) => append_out(s, be16(x)),
        FieldValue::U32(x) => append_out(s, be32(x)),
        FieldValue::U64(x) => append_out(s, be64(x)),
        FieldValue::F32Bits(x) => append_out(s, be32(x)),
        FieldValue::F64Bits(x) => append_out(s, be64(x)),
        FieldValue::Char(c) => append_out(s, seq![(c as u32) as u8]),
        FieldValue::Str(t) => append_value(s, string_record(utf8(t))),
        FieldValue::Object(o) => ser_end(ser_fields(s, o.fields@)),
    }
}

/// What writing a field does before its value is written, by the Rust path
/// `cn` of the value's type: for a registered class, a nested object's header
/// (none for `java.lang.Object`) and the nested mode; inside a nested object,
/// an `I` descriptor for `i32` and an `L` descriptor for
/// `alloc::string::String`, unless the head declared a `java.lang.Object`
/// field, whose first string then goes without one; nothing for other types.
pub open spec fn ser_field_prefix(s: JvmState, key: Seq<u8>, cn: Seq<u8>) -> JvmState {
    if s.metadata.contains_key(cn) {
        let m = s.metadata[cn];
        let s1 = if m.java_name != java_lang_object() {
            append_out(s, object_header(m))
        } else {
            s
        };
        JvmState { inner: true, ..s1 }
    } else if cn == name_i32() {
        if s.inner {
            append_out(s, field_descriptor(73u8, key))
        } else {
            s
        }
    } else if cn == name_string_path() {
        if s.inner {
            if !s.inner_is_object {
                append_out(s, field_descriptor(76u8, key))
            } else {
                JvmState { inner_is_object: false, ..s }
            }
        } else {
            s
        }
    } else {
        s
    }
}

/// Writing one field whose value `v` has a type of Rust path `cn`.
pub open spec fn ser_field(s: JvmState, key: Seq<u8>, cn: Seq<u8>, v: FieldValue) -> JvmState
    decreases v, 2int,
{
    ser_value(ser_field_prefix(s, key, cn), v)
}

/// Writing fields in order.
pub open spec fn ser_fields(s: JvmState, fs: Seq<NamedValue>) -> JvmState
    decreases fs, 0int,
{
    if fs.len() == 0 {
        s
    } else {
        ser_field(
            ser_fields(s, fs.drop_last()),
            utf8(fs.last().name),
            utf8(fs.last().value_type),
            fs.last().value,
        )
    }
}

/// Ending an object.
pub open spec fn ser_end(s: JvmState) -> JvmState {
    let s1 = if s.inner {
        JvmState { buf: s.buf + object_trailer(), inner: false, ..s }
    } else {
        s
    };
    JvmState { buf: s1.buf + s1.value_buf, value_buf: Seq::empty(), ..s1 }
}

/// The bytes that `t`'s output holds beyond `s`'s.
pub open spec fn appended(s: JvmState, t: JvmState) -> Seq<u8> {
    t.buf.subrange(s.buf.len() as int, t.buf.len() as int)
}

/// `t` is `s` with bytes appended to the output and nothing else changed.
pub open spec fn only_appends(s: JvmState, t: JvmState) -> bool {
    &&& s.buf.len() <= t.buf.len()
    &&& t == (JvmState { buf: s.buf + appended(s, t), ..s })
}

/// The bits of a signed number of `bits` bits, as an unsigned number.
pub open spec fn twos_complement(x: int, bits: nat) -> int {
    if x >= 0 {
        x
    } else {
        x + vstd::arithmetic::power2::pow2(bits)
    }
}

/// Writing an `i16` appends its two bytes big-endian, in two's complement.
pub proof fn lemma_write_i16(s: JvmState, x: i16)
    ensures
        only_appends(s, ser_value(s, FieldValue::I16(x))),
        appended(s, ser_value(s, FieldValue::I16(x))).len() == 2,
        be_value(appended(s, ser_value(s, FieldValue::I16(x)))) == twos_complement(x as int, 16),
{
    let t = ser_value(s, FieldValue::I16(x));
    assert(appended(s, t) =~= be16(x as u16));
    assert(t.buf =~= s.buf + appended(s, t));
    lemma_be16_value(x as u16);
    assert((x as u16) as int == twos_complement(x as int, 16)) by {
        vstd::arithmetic::power2::lemma2_to64();
        assert(x >= 0 ==> (x as u16) as int == x as int) by (bit_vector);
        assert(x < 0 ==> (x as u16) as int == x as int + 0x10000) by (bit_vector);
    }
}

/// Writing an `i64` appends its eight bytes big-endian, in two's complement.
pub proof fn lemma_write_i64(s: JvmState, x: i64)
    ensures
        only_appends(s, ser_value(s, FieldValue::I64(x))),
        appended(s, ser_value(s, FieldValue::I64(x))).len() == 8,
        be_value(appended(s, ser_value(s, FieldValue::I64(x)))) == twos_complement(x as int, 64),
{
    let t = ser_value(s, FieldValue::I64(x));
    assert(appended(s, t) =~= be64(x as u64));
    assert(t.buf =~= s.buf + appended(s, t));
    lemma_be64_value(x as u64);
    assert((x as u64) as int == twos_complement(x as int, 64)) by {
        vstd::arithmetic::power2::lemma2_to64();
        assert(x >= 0 ==> (x as u64) as int == x as int) by (bit_vector);
        assert(x < 0 ==> (x as u64) as int == x as int + 0x1_0000_0000_0000_0000) by (bit_vector);
    }
}

/// Writing a `u16` appends its two bytes big-endian.
pub proof fn lemma_write_u16(s: JvmState, x: u16)
    ensures
        only_appends(s, ser_value(s, FieldValue::U16(x))),
        appended(s, ser_value(s, FieldValue::U16(x))).len() == 2,
        be_value(appended(s, ser_value(s, FieldValue::U16(x)))) == x as int,
{
    let t = ser_value(s, FieldValue::U16(x));
    assert(appended(s, t) =~= be16(x));
    assert(t.buf =~= s.buf + appended(s, t));
    lemma_be16_value(x);
}

/// Writing a `u32` appends its four bytes big-endian.
pub proof fn lemma_write_u32(s: JvmState, x: u32)
    ensures
        only_appends(s, ser_value(s, FieldValue::U32(x))),
        appended(s, ser_value(s, FieldValue::U32(x))).len() == 4,
        be_value(appended(s, ser_value(s, FieldValue::U32(x)))) == x as int,
{
    let t = ser_value(s, FieldValue::U32(x));
    assert(appended(s, t) =~= be32(x));
    assert(t.buf =~= s.buf + appended(s, t));
    lemma_be32_value(x);
}

/// Writing a `u64` appends its eight bytes big-endian.
pub proof fn lemma_write_u64(s: JvmState, x: u64)
    ensures
        only_appends(s, ser_value(s, FieldValue::U64(x))),
        appended(s, ser_value(s, FieldValue::U64(x))).len() == 8,
        be_value(appended(s, ser_value(s, FieldValue::U64(x)))) == x as int,
{
    let t = ser_value(s, FieldValue::U64(x));
    assert(appended(s, t) =~= be64(x));
    assert(t.buf =~= s.buf + appended(s, t));
    lemma_be64_value(x);
}

/// Writing a 32-bit float appends the four bytes of its IEEE 754 bits, big-endian.
pub proof fn lemma_write_f32_bits(s: JvmState, x: u32)
    ensures
        only_appends(s, ser_value(s, FieldValue::F32Bits(x))),
        appended(s, ser_value(s, FieldValue::F32Bits(x))).len() == 4,
        be_value(appended(s, ser_value(s, FieldValue::F32Bits(x)))) == x as int,
{
    let t = ser_value(s, FieldValue::F32Bits(x));
    assert(appended(s, t) =~= be32(x));
    assert(t.buf =~= s.buf + appended(s, t));
    lemma_be32_value(x);
}

/// Writing a 64-bit float appends the eight bytes of its IEEE 754 bits, big-endian.
pub proof fn lemma_write_f64_bits(s: JvmState, x: u64)
    ensures
        only_appends(s, ser_value(s, FieldValue::F64Bits(x))),
        appended(s, ser_value(s, FieldValue::F64Bits(x))).len() == 8,
        be_value(appended(s, ser_value(s, FieldValue::F64Bits(x)))) == x as int,
{
    let t = ser_value(s, FieldValue::F64Bits(x));
    assert(appended(s, t) =~= be64(x));
    assert(t.buf =~= s.buf + appended(s, t));
    lemma_be64_value(x);
}

/// Writing a `bool` appends one byte: 1 for `true`, 0 for `false`.
pub proof fn lemma_write_bool(s: JvmState, x: bool)
    ensures
        only_appends(s, ser_value(s, FieldValue::Bool(x))),
        appended(s, ser_value(s, FieldValue::Bool(x))) == seq![if x { 1u8 } else { 0u8 }],
{
    let t = ser_value(s, FieldValue::Bool(x));
    assert(appended(s, t) =~= seq![if x { 1u8 } else { 0u8 }]);
    assert(t.buf =~= s.buf + appended(s, t));
}

/// Writing an `i8` appends its one byte, in two's complement.
pub proof fn lemma_write_i8(s: JvmState, x: i8)
    ensures
        only_appends(s, ser_value(s, FieldValue::I8(x))),
        appended(s, ser_value(s, FieldValue::I8(x))).len() == 1,
        appended(s, ser_value(s, FieldValue::I8(x)))[0] == twos_complement(x as int, 8),
{
    let t = ser_value(s, FieldValue::I8(x));
    assert(appended(s, t) =~= seq![x as u8]);
    assert(t.buf =~= s.buf + appended(s, t));
    assert((x as u8) as int == twos_complement(x as int, 8)) by {
        vstd::arithmetic::power2::lemma2_to64();
        assert(x >= 0 ==> (x as u8) as int == x as int) by (bit_vector);
        assert(x < 0 ==> (x as u8) as int == x as int + 0x100) by (bit_vector);
    }
}

/// Writing a `u8` appends it.
pub proof fn lemma_write_u8(s: JvmState, x: u8)
    ensures
        only_appends(s, ser_value(s, FieldValue::U8(x))),
        appended(s, ser_value(s, FieldValue::U8(x))) == seq![x],
{
    let t = ser_value(s, FieldValue::U8(x));
    assert(appended(s, t) =~= seq![x]);
    assert(t.buf =~= s.buf + appended(s, t));
}

/// Writing a `char` appends one byte: its code point modulo 256.
pub proof fn lemma_write_char(s: JvmState, c: char)
    ensures
        only_appends(s, ser_value(s, FieldValue::Char(c))),
        appended(s, ser_value(s, FieldValue::Char(c))).len() == 1,
        appended(s, ser_value(s, FieldValue::Char(c)))[0] == (c as u32) % 256,
{
    let t = ser_value(s, FieldValue::Char(c));
    let x = c as u32;
    assert(appended(s, t) =~= seq![x as u8]);
    assert(t.buf =~= s.buf + appended(s, t));
    assert((x as u8) as u32 == x % 256) by (bit_vector);
}

/// Writing an `i32` appends its four bytes big-endian, in two's complement:
/// to the output, or inside a nested object to the values held back.
pub proof fn lemma_write_i32(s: JvmState, x: i32)
    ensures
        ({
            let t = ser_value(s, FieldValue::I32(x));
            let b = if s.inner {
                t.value_buf.subrange(s.value_buf.len() as int, t.value_buf.len() as int)
            } else {
                appended(s, t)
            };
            &&& b.len() == 4
            &&& be_value(b) == twos_complement(x as int, 32)
            &&& s.inner ==> t == (JvmState { value_buf: s.value_buf + b, ..s })
            &&& !s.inner ==> t == (JvmState { buf: s.buf + b, ..s })
        }),
{
    let t = ser_value(s, FieldValue::I32(x));
    if s.inner {
        assert(t.value_buf.subrange(s.value_buf.len() as int, t.value_buf.len() as int) =~= be32(
            x as u32,
        ));
    } else {
        assert(appended(s, t) =~= be32(x as u32));
    }
    lemma_be32_value(x as u32);
    assert((x as u32) as int == twos_complement(x as int, 32)) by {
        vstd::arithmetic::power2::lemma2_to64();
        assert(x >= 0 ==> (x as u32) as int == x as int) by (bit_vector);
        assert(x < 0 ==> (x as u32) as int == x as int + 0x1_0000_0000) by (bit_vector);
    }
}

/// Writing a string appends the tag 116 (`TC_STRING`), its length in bytes
/// modulo 2^16 as two big-endian bytes, and its UTF-8 bytes: to the output,
/// or inside a nested object to the values held back.
pub proof fn lemma_write_string(s: JvmState, x: String)
    ensures
        ({
            let t = ser_value(s, FieldValue::Str(x));
            let b = if s.inner {
                t.value_buf.subrange(s.value_buf.len() as int, t.value_buf.len() as int)
            } else {
                appended(s, t)
            };
            &&& b.len() == 3 + utf8(x).len()
            &&& b[0] == 116u8
            &&& be_value(b.subrange(1, 3)) == utf8(x).len() % 0x10000
            &&& b.subrange(3, b.len() as int) == utf8(x)
            &&& s.inner ==> t == (JvmState { value_buf: s.value_buf + b, ..s })
            &&& !s.inner ==> t == (JvmState { buf: s.buf + b, ..s })
        }),
{
    let t = ser_value(s, FieldValue::Str(x));
    let r = string_record(utf8(x));
    if s.inner {
        assert(t.value_buf.subrange(s.value_buf.len() as int, t.value_buf.len() as int) =~= r);
    } else {
        assert(appended(s, t) =~= r);
    }
    let n = (utf8(x).len() % 0x10000) as u16;
    lemma_be16_value(n);
    assert(r.subrange(1, 3) =~= be16(n));
    assert(r.subrange(3, r.len() as int) =~= utf8(x));
}

/// Inside a nested object, a field of type `i32` whose class is not
/// registered gets its `I` descriptor (73, the name's length, the name),
/// whether or not the head declared a `java.lang.Object` field; nothing else
/// changes.
pub proof fn lemma_i32_field_gets_descriptor(s: JvmState, key: Seq<u8>)
    requires
        s.inner,
        !s.metadata.contains_key(name_i32()),
    ensures
        only_appends(s, ser_field_prefix(s, key, name_i32())),
        appended(s, ser_field_prefix(s, key, name_i32())) == seq![73u8] + len_prefix(key.len())
            + key,
{
    let t = ser_field_prefix(s, key, name_i32());
    assert(appended(s, t) =~= seq![73u8] + len_prefix(key.len()) + key);
    assert(t.buf =~= s.buf + appended(s, t));
}

/// Inside a nested object, a field of type `alloc::string::String` whose
/// class is not registered gets its `L` descriptor; where the head declared a
/// `java.lang.Object` field, the first such field instead goes without one
/// and uses the mark up.
pub proof fn lemma_string_field_descriptor(s: JvmState, key: Seq<u8>)
    requires
        s.inner,
        !s.metadata.contains_key(name_string_path()),
    ensures
        !s.inner_is_object ==> only_appends(s, ser_field_prefix(s, key, name_string_path()))
            && appended(s, ser_field_prefix(s, key, name_string_path())) == seq![76u8]
            + len_prefix(key.len()) + key,
        s.inner_is_object ==> ser_field_prefix(s, key, name_string_path()) == (JvmState {
            inner_is_object: false,
            ..s
        }),
{
    assert(name_string_path() != name_i32()) by {
        assert(name_string_path().len() != name_i32().len());
    }
    let t = ser_field_prefix(s, key, name_string_path());
    if !s.inner_is_object {
        assert(appended(s, t) =~= seq![76u8] + len_prefix(key.len()) + key);
        assert(t.buf =~= s.buf + appended(s, t));
    }
}

/// A field whose type has no registered class writes nothing before its
/// value outside a nested object, and nothing inside one unless its type is
/// `i32` or `alloc::string::String`.
pub proof fn lemma_plain_field_writes_no_descriptor(s: JvmState, key: Seq<u8>, cn: Seq<u8>)
    requires
        !s.metadata.contains_key(cn),
        !s.inner || (cn != name_i32() && cn != name_string_path()),
    ensures
        ser_field_prefix(s, key, cn) == s,
{
}

/// A field whose type's class is registered opens a nested object: unless the
/// class is `java.lang.Object`, its header goes out (115, 114, the Java
/// name's length and bytes, the eight bytes of the serial version UID, the
/// flags byte 2, the two bytes of the field count); the fields that follow
/// are nested.
pub proof fn lemma_registered_field_opens_object(s: JvmState, key: Seq<u8>, cn: Seq<u8>)
    requires
        s.metadata.contains_key(cn),
    ensures
        ({
            let m = s.metadata[cn];
            let t = ser_field_prefix(s, key, cn);
            let b = appended(s, t);
            let jl = m.java_name.len() as int;
            &&& s.buf.len() <= t.buf.len()
            &&& t == (JvmState { buf: s.buf + b, inner: true, ..s })
            &&& m.java_name == java_lang_object() ==> b.len() == 0
            &&& m.java_name != java_lang_object() ==> {
                &&& b.len() == 15 + jl
                &&& b[0] == 115u8 && b[1] == 114u8
                &&& be_value(b.subrange(2, 4)) == m.java_name.len() % 0x10000
                &&& b.subrange(4, 4 + jl) == m.java_name
                &&& be_value(b.subrange(4 + jl, 12 + jl)) == m.uid
                &&& b[12 + jl] == 2u8
                &&& be_value(b.subrange(13 + jl, 15 + jl)) == m.field_count
            }
        }),
{
    let m = s.metadata[cn];
    let t = ser_field_prefix(s, key, cn);
    let jl = m.java_name.len() as int;
    if m.java_name != java_lang_object() {
        let h = object_header(m);
        assert(appended(s, t) =~= h);
        let n = (m.java_name.len() % 0x10000) as u16;
        lemma_be16_value(n);
        lemma_be64_value(m.uid);
        lemma_be16_value(m.field_count);
        assert(h.subrange(2, 4) =~= be16(n));
        assert(h.subrange(4, 4 + jl) =~= m.java_name);
        assert(h.subrange(4 + jl, 12 + jl) =~= be64(m.uid));
        assert(h.subrange(13 + jl, 15 + jl) =~= be16(m.field_count));
        assert(t.buf =~= s.buf + h);
    } else {
        assert(appended(s, t) =~= Seq::<u8>::empty());
        assert(t.buf =~= s.buf + appended(s, t));
    }
}

/// Ending an object: inside a nested object, the bytes 113, 0, 126, 0, 1
/// (a back reference to handle `0x7e0001`), 120 (`TC_ENDBLOCKDATA`) and 112
/// (`TC_NULL`) go out and the nesting ends; then the values held back follow,
/// in the order they were written, and none are held back any more.
pub proof fn lemma_end_object(s: JvmState)
    ensures
        ser_end(s) == (JvmState {
            buf: s.buf + (if s.inner {
                seq![113u8, 0, 126, 0, 1, 120, 112]
            } else {
                Seq::<u8>::empty()
            }) + s.value_buf,
            value_buf: Seq::empty(),
            inner: false,
            ..s
        }),
{
    if !s.inner {
        assert(s.buf + Seq::<u8>::empty() =~= s.buf);
    }
}

/// Writing a value only appends to the output: what was written stays, and
/// the class table and the read position are left alone.
pub proof fn lemma_write_only_appends(s: JvmState, v: FieldValue)
    ensures
        s.buf.is_prefix_of(ser_value(s, v).buf),
        ser_value(s, v).metadata == s.metadata,
        ser_value(s, v).read_idx == s.read_idx,
    decreases v, 1int,
{
    match v {
        FieldValue::Object(o) => {
            assert(decreases_to!(v => o));
            assert(decreases_to!(o => o.fields));
            assert(decreases_to!(o.fields => o.fields@));
            lemma_fields_only_append(s, o.fields@);
            let s1 = ser_fields(s, o.fields@);
            let s2 = ser_end(s1);
            lemma_prefix_trans(s.buf, s1.buf, s2.buf);
        },
        _ => {
            let s2 = ser_value(s, v);
            assert(s2.buf.subrange(0, s.buf.len() as int) =~= s.buf);
        },
    }
}

/// Writing fields only appends to the output (see `lemma_write_only_appends`).
pub proof fn lemma_fields_only_append(s: JvmState, fs: Seq<NamedValue>)
    ensures
        s.buf.is_prefix_of(ser_fields(s, fs).buf),
        ser_fields(s, fs).metadata == s.metadata,
        ser_fields(s, fs).read_idx == s.read_idx,
    decreases fs, 0int,
{
    if fs.len() == 0 {
        assert(s.buf.subrange(0, s.buf.len() as int) =~= s.buf);
    } else {
        let init = fs.drop_last();
        let f = fs.last();
        lemma_fields_only_append(s, init);
        let s1 = ser_fields(s, init);
        let s2 = ser_field_prefix(s1, utf8(f.name), utf8(f.value_type));
        assert(s1.buf.is_prefix_of(s2.buf)) by {
            assert(s2.buf.subrange(0, s1.buf.len() as int) =~= s1.buf);
        }
        assert(decreases_to!(fs => fs[fs.len() - 1]));
        lemma_write_only_appends(s2, f.value);
        lemma_prefix_trans(s.buf, s1.buf, s2.buf);
        lemma_prefix_trans(s.buf, s2.buf, ser_value(s2, f.value).buf);
        assert(ser_fields(s, fs) == ser_field(s1, utf8(f.name), utf8(f.value_type), f.value));
        assert(ser_field(s1, utf8(f.name), utf8(f.value_type), f.value) == ser_value(s2, f.value));
        assert(s2.metadata == s1.metadata);
    }
}

pub(crate) proof fn lemma_prefix_trans(a: Seq<u8>, b: Seq<u8>, c: Seq<u8>)
    requires
        a.is_prefix_of(b),
        b.is_prefix_of(c),
    ensures
        a.is_prefix_of(c),
{
    assert(c.subrange(0, a.len() as int) =~= c.subrange(0, b.len() as int).subrange(0, a.len() as int));
}

/// The fields of a struct being written, one after the other.
pub struct Compound<'a> {
    pub ser: &'a mut JvmSerializer,
}

impl JvmSerializer {
    /// A serializer with nothing written.
    pub fn new() -> (s: JvmSerializer)
        ensures
            s@ == fresh_state(Seq::empty()),
    {
        JvmSerializer {
            buf: Vec::new(),
            inner: false,
            value_buf: Vec::new(),
            inner_is_object: false,
            metadata_structs: MetadataTable::new(),
            read_idx: 0,
        }
    }

    /// What has been written.
    pub fn bytes(&self) -> (r: &Vec<u8>)
        ensures
            r@ == self@.buf,
    {
        &self.buf
    }

    /// Hands over what has been written.
    pub fn into_bytes(self) -> (r: Vec<u8>)
        ensures
            r@ == self@.buf,
    {
        self.buf
    }

    /// Appends `bytes` to the output.
    pub(crate) fn push_out(&mut self, bytes: &[u8])
        ensures
            final(self)@ == append_out(old(self)@, bytes@),
    {
        push_all(&mut self.buf, bytes);
    }

    /// Notes that the head declared a field of class `java.lang.Object`.
    pub(crate) fn set_object_flag(&mut self)
        ensures
            final(self)@ == (JvmState { inner_is_object: true, ..old(self)@ }),
    {
        self.inner_is_object = true;
    }

    pub(crate) fn object_flag(&self) -> (r: bool)
        ensures
            r == self@.inner_is_object,
    {
        self.inner_is_object
    }

    /// The description registered under `key`.
    pub(crate) fn meta_get(&self, key: &[u8]) -> (r: Option<&ClassMeta>)
        ensures
            match r {
                Some(m) => self@.metadata.contains_key(key@) && self@.metadata[key@] == m@,
                None => !self@.metadata.contains_key(key@),
            },
    {
        self.metadata_structs.get(key)
    }

    /// Registers `meta` under `key`.
    pub(crate) fn meta_insert(&mut self, key: Vec<u8>, meta: ClassMeta)
        ensures
            final(self)@ == (JvmState {
                metadata: old(self)@.metadata.insert(key@, meta@),
                ..old(self)@
            }),
    {
        self.metadata_structs.insert(key, meta);
    }

    /// The bytes being read.
    pub(crate) fn input(&self) -> (r: &[u8])
        ensures
            r@ == self@.buf,
    {
        self.buf.as_slice()
    }

    /// Where reading goes on.
    pub(crate) fn read_pos(&self) -> (r: usize)
        ensures
            r == self@.read_idx,
    {
        self.read_idx
    }

    /// Moves the read position, and notes whether a nested object was entered.
    pub(crate) fn set_read_state(&mut self, pos: usize, inner: bool)
        ensures
            final(self)@ == (JvmState { read_idx: pos as nat, inner, ..old(self)@ }),
    {
        self.read_idx = pos;
        self.inner = inner;
    }

    pub(crate) fn inner_flag(&self) -> (r: bool)
        ensures
            r == self@.inner,
    {
        self.inner
    }

    /// A serializer that reads `data`.
    pub fn reader(data: Vec<u8>) -> (s: JvmSerializer)
        ensures
            s@ == fresh_state(data@),
    {
        JvmSerializer {
            buf: data,
            inner: false,
            value_buf: Vec::new(),
            inner_is_object: false,
            metadata_structs: MetadataTable::new(),
            read_idx: 0,
        }
    }

    fn push_value_bytes(&mut self, bytes: &[u8])
        ensures
            final(self)@ == append_value(old(self)@, bytes@),
    {
        if self.inner {
            push_all(&mut self.value_buf, bytes);
        } else {
            push_all(&mut self.buf, bytes);
        }
    }

    pub fn serialize_bool(&mut self, v: bool)
        ensures
            final(self)@ == ser_value(old(self)@, FieldValue::Bool(v)),
    {
        if v {
            self.buf.push(1);
        } else {
            self.buf.push(0);
        }
        assert(self@ =~= ser_value(old(self)@, FieldValue::Bool(v)));
    }

    pub fn serialize_i8(&mut self, v: i8)
        ensures
            final(self)@ == ser_value(old(self)@, FieldValue::I8(v)),
    {
        self.buf.push(v as u8);
        assert(self@ =~= ser_value(old(self)@, FieldValue::I8(v)));
    }

    pub fn serialize_i16(&mut self, v: i16)
        ensures
            final(self)@ == ser_value(old(self)@, FieldValue::I16(v)),
    {
        push_be16(&mut self.buf, v as u16);
    }

    pub fn serialize_i32(&mut self, v: i32)
        ensures
            final(self)@ == ser_value(old(self)@, FieldValue::I32(v)),
    {
        if self.inner {
            push_be32(&mut self.value_buf, v as u32);
        } else {
            push_be32(&mut self.buf, v as u32);
        }
    }

    pub fn serialize_i64(&mut self, v: i64)
        ensures
            final(self)@ == ser_value(old(self)@, FieldValue::I64(v)),
    {
        push_be64(&mut self.buf, v as u64);
    }

    pub fn serialize_u8(&mut self, v: u8)
        ensures
            final(self)@ == ser_value(old(self)@, FieldValue::U8(v)),
    {
        self.buf.push(v);
        assert(self@ =~= ser_value(old(self)@, FieldValue::U8(v)));
    }

    pub fn serialize_u16(&mut self, v: u16)
        ensures
            final(self)@ == ser_value(old(self)@, FieldValue::U16(v)),
    {
        push_be16(&mut self.buf, v);
    }

    pub fn serialize_u32(&mut self, v: u32)
        ensures
            final(self)@ == ser_value(old(self)@, FieldValue::U32(v)),
    {
        push_be32(&mut self.buf, v);
    }

    pub fn serialize_u64(&mut self, v: u64)
        ensures
            final(self)@ == ser_value(old(self)@, FieldValue::U64(v)),
    {
        push_be64(&mut self.buf, v);
    }

    /// Writes a 32-bit float given by its bits.
    pub fn serialize_f32_bits(&mut self, bits: u32)
        ensures
            final(self)@ == ser_value(old(self)@, FieldValue::F32Bits(bits)),
    {
        push_be32(&mut self.buf, bits);
    }

    /// Writes a 64-bit float given by its bits.
    pub fn serialize_f64_bits(&mut self, bits: u64)
        ensures
            final(self)@ == ser_value(old(self)@, FieldValue::F64Bits(bits)),
    {
        push_be64(&mut self.buf, bits);
    }

    /// Writes the low byte of the character's code point.
    pub fn serialize_char(&mut self, v: char)
        ensures
            final(self)@ == ser_value(old(self)@, FieldValue::Char(v)),
    {
        self.buf.push((v as u32) as u8);
        assert(self@ =~= ser_value(old(self)@, FieldValue::Char(v)));
    }

    pub fn serialize_str(&mut self, v: &str)
        ensures
            final(self)@ == append_value(old(self)@, string_record(v.spec_bytes())),
    {
        let bytes = v.as_bytes();
        let mut rec: Vec<u8> = Vec::new();
        rec.push(116);
        push_len_prefix(&mut rec, bytes.len());
        push_all(&mut rec, bytes);
        assert(rec@ =~= string_record(v.spec_bytes()));
        self.push_value_bytes(rec.as_slice());
    }

    pub fn serialize_bytes(&mut self, v: &[u8])
        ensures
            final(self)@ == append_out(old(self)@, v@),
    {
        push_all(&mut self.buf, v);
    }

    /// Starts a struct: its fields follow through the returned `Compound`.
    pub fn serialize_struct(&mut self) -> (c: Compound<'_>)
        ensures
            *c.ser == *old(self),
            *final(c.ser) == *final(self),
    {
        Compound { ser: self }
    }

    /// Writes a value, as its `Serialize` impl would drive this serializer.
    pub fn serialize_value(&mut self, v: &FieldValue)
        ensures
            final(self)@ == ser_value(old(self)@, *v),
        decreases *v, 1int,
    {
        match v {
            FieldValue::Bool(b) => self.serialize_bool(*b),
            FieldValue::I8(x) => self.serialize_i8(*x),
            FieldValue::I16(x) => self.serialize_i16(*x),
            FieldValue::I32(x) => self.serialize_i32(*x),
            FieldValue::I64(x) => self.serialize_i64(*x),
            FieldValue::U8(x) => self.serialize_u8(*x),
            FieldValue::U16(x) => self.serialize_u16(*x),
            FieldValue::U32(x) => self.serialize_u32(*x),
            FieldValue::U64(x) => self.serialize_u64(*x),
            FieldValue::F32Bits(x) => self.serialize_f32_bits(*x),
            FieldValue::F64Bits(x) => self.serialize_f64_bits(*x),
            FieldValue::Char(c) => self.serialize_char(*c),
            FieldValue::Str(t) => self.serialize_str(t.as_str()),
            FieldValue::Object(o) => {
                let mut i: usize = 0;
                while i < o.fields.len()
                    invariant
                        0 <= i <= o.fields@.len(),
                        *v == FieldValue::Object(*o),
                        self@ == ser_fields(old(self)@, o.fields@.take(i as int)),
                    decreases o.fields@.len() - i,
                {
                    let f = &o.fields[i];
                    proof {
                        assert(decreases_to!(*v => (*v)->Object_0));
                        assert(decreases_to!(*o => o.fields));
                        assert(decreases_to!(o.fields => o.fields@));
                        assert(decreases_to!(o.fields@ => o.fields@[i as int]));
                        assert(decreases_to!(o.fields@[i as int] => o.fields@[i as int].value));
                    }
                    self.write_field(f.name.as_str(), f.value_type.as_str(), &f.value);
                    assert(o.fields@.take(i + 1).drop_last() =~= o.fields@.take(i as int));
                    i = i + 1;
                }
                assert(o.fields@.take(i as int) =~= o.fields@);
                self.end_object();
            },
        }
    }

    /// Writes one field of a struct, whose value has a type of Rust path
    /// `value_type`: first, where that type's class is known, or it is `i32`
    /// or `alloc::string::String` inside a nested object, what describes it;
    /// then the value.
    pub fn write_field(&mut self, key: &str, value_type: &str, value: &FieldValue)
        ensures
            final(self)@ == ser_field(old(self)@, key.spec_bytes(), value_type.spec_bytes(), *value),
        decreases *value, 2int,
    {
        let cn = value_type.as_bytes();
        let found = match self.meta_get(cn) {
            Some(m) => Some(m.clone_meta()),
            None => None,
        };
        match found {
            Some(data) => {
                if !is_java_lang_object(data.java_name.as_slice()) {
                    self.buf.push(115);
                    self.buf.push(114);
                    push_len_prefix(&mut self.buf, data.java_name.len());
                    push_all(&mut self.buf, data.java_name.as_slice());
                    push_be64(&mut self.buf, data.uid);
                    self.buf.push(2);
                    push_be16(&mut self.buf, data.field_count);
                }
                self.inner = true;
            },
            None => {
                if is_i32_name(cn) {
                    if self.inner {
                        self.buf.push(73);
                        push_len_prefix(&mut self.buf, key.as_bytes().len());
                        push_all(&mut self.buf, key.as_bytes());
                    }
                } else if is_string_path_name(cn) {
                    if self.inner {
                        if !self.inner_is_object {
                            self.buf.push(76);
                            push_len_prefix(&mut self.buf, key.as_bytes().len());
                            push_all(&mut self.buf, key.as_bytes());
                        } else {
                            self.inner_is_object = false;
                        }
                    }
                }
            },
        }
        assert(self@ =~= ser_field_prefix(old(self)@, key.spec_bytes(), value_type.spec_bytes()));
        self.serialize_value(value);
    }

    /// Ends a struct: closes a nested object's descriptors, then lets out the
    /// values held back.
    pub fn end_object(&mut self)
        ensures
            final(self)@ == ser_end(old(self)@),
    {
        if self.inner {
            self.buf.push(113);
            self.buf.push(0);
            self.buf.push(126);
            self.buf.push(0);
            self.buf.push(1);
            self.buf.push(120);
            self.buf.push(112);
            self.inner = false;
        }
        let ghost mid = self@;
        let mut held: Vec<u8> = Vec::new();
        std::mem::swap(&mut held, &mut self.value_buf);
        push_all(&mut self.buf, held.as_slice());
        assert(self@ =~= JvmState { buf: mid.buf + mid.value_buf, value_buf: Seq::empty(), ..mid });
    }
}

impl<'a> Compound<'a> {
    /// Writes one field (see `JvmSerializer::write_field`).
    pub fn serialize_field(&mut self, key: &str, value_type: &str, value: &FieldValue)
        ensures
            (*final(self).ser)@ == ser_field(
                (*old(self).ser)@,
                key.spec_bytes(),
                value_type.spec_bytes(),
                *value,
            ),
            *final(final(self).ser) == *final(old(self).ser),
    {
        self.ser.write_field(key, value_type, value);
    }

    /// Ends the struct (see `JvmSerializer::end_object`).
    pub fn end(self)
        ensures
            (*final(self.ser))@ == ser_end((*old(self.ser))@),
    {
        self.ser.end_object();
    }
}

/// Whether `b` spells `i32`.
pub fn is_i32_name(b: &[u8]) -> (r: bool)
    ensures
        r == (b@ == name_i32()),
{
    let r = b.len() == 3 && b[0] == 105 && b[1] == 51 && b[2] == 50;
    assert(r ==> b@ =~= name_i32());
    r
}

/// Whether `b` spells `alloc::string::String`.
pub fn is_string_path_name(b: &[u8]) -> (r: bool)
    ensures
        r == (b@ == name_string_path()),
{
    let r = b.len() == 21 && b[0] == 97 && b[1] == 108 && b[2] == 108 && b[3] == 111 && b[4] == 99
        && b[5] == 58 && b[6] == 58 && b[7] == 115 && b[8] == 116 && b[9] == 114 && b[10] == 105
        && b[11] == 110 && b[12] == 103 && b[13] == 58 && b[14] == 58 && b[15] == 83 && b[16] == 116
        && b[17] == 114 && b[18] == 105 && b[19] == 110 && b[20] == 103;
    assert(r ==> b@ =~= name_string_path());
    r
}

} // verus!

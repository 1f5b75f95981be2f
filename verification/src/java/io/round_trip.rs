//! What a reader gives back of what a writer wrote.
use vstd::prelude::*;
use vstd::utf8::{encode_utf8_decode_utf8, encode_utf8_valid_utf8};
use crate::java::io::bytes::{
    be32, len_prefix, lemma_i32_bits, lemma_len_prefix_round_trip, lemma_u32_round_trip,
};
use crate::java::io::stream::{read_stream, write_stream};
use crate::java::io::deserializer::{
    rd_head, rd_i32, rd_string, rd_struct_prefix, rd_tuple, rd_value, skip_counted, skip_descs, skip_head_field, skip_head_fields,
};
use crate::java::io::head::{
    build_meta, head_field_bytes, head_fields, head_prefix, jvm_type_name, marks_object, type_code,
    write_head_state,
};
use crate::java::io::metadata::ClassMetaView;
use crate::java::io::model::{
    java_lang_object, name_i32, name_string, name_string_path, primitive_code, utf8,
    ClassDesc, Data, FieldDesc, FieldValue, NamedValue, ObjectValue, ShapeModel,
};
use crate::java::io::serializer::{
    append_out, field_descriptor, fresh_state, object_header, object_trailer, ser_end, ser_field,
    ser_field_prefix, ser_fields, ser_value, string_record, JvmState,
};

verus! {

/// The shape a reader needs for a field value.
pub open spec fn value_shape(v: FieldValue) -> ShapeModel
    decreases v, 1int,
{
    match v {
        FieldValue::Str(_) => ShapeModel::Str,
        FieldValue::Object(o) => ShapeModel::Object(fields_shapes(o.fields@)),
        _ => ShapeModel::I32,
    }
}

/// The shapes of fields, in order.
pub open spec fn fields_shapes(fs: Seq<NamedValue>) -> Seq<ShapeModel>
    decreases fs, 0int,
{
    if fs.len() == 0 {
        Seq::empty()
    } else {
        fields_shapes(fs.drop_last()).push(value_shape(fs.last().value))
    }
}

/// The shape of an object's type.
pub open spec fn object_shape(o: ObjectValue) -> ShapeModel {
    ShapeModel::Object(fields_shapes(o.fields@))
}

/// The data a reader gives for a field value.
pub open spec fn field_data(v: FieldValue) -> Data
    decreases v, 1int,
{
    match v {
        FieldValue::I32(x) => Data::I32(x),
        FieldValue::Str(t) => Data::Str(t@),
        FieldValue::Object(o) => Data::Object(fields_data(o.fields@)),
        _ => Data::I32(0),
    }
}

/// The data of fields, in order.
pub open spec fn fields_data(fs: Seq<NamedValue>) -> Seq<Data>
    decreases fs, 0int,
{
    if fs.len() == 0 {
        Seq::empty()
    } else {
        fields_data(fs.drop_last()).push(field_data(fs.last().value))
    }
}

/// The data of an object.
pub open spec fn object_data(o: ObjectValue) -> Data {
    Data::Object(fields_data(o.fields@))
}

/// A length a reader can take back: below 2^15.
pub open spec fn short(b: Seq<u8>) -> bool {
    b.len() < 0x8000
}

/// A value that reads back by itself: an `i32` or a short string.
pub open spec fn flat_value(v: FieldValue) -> bool {
    match v {
        FieldValue::I32(_) => true,
        FieldValue::Str(t) => short(utf8(t)),
        _ => false,
    }
}

/// A field of a nested object that reads back: a flat value with a short
/// name, of type `i32` for an `i32` and `alloc::string::String` for a string
/// (the types whose descriptors a nested object's fields get).
pub open spec fn flat_field(f: NamedValue) -> bool {
    &&& short(utf8(f.name))
    &&& flat_value(f.value)
    &&& utf8(f.value_type) == (if f.value is I32 {
        name_i32()
    } else {
        name_string_path()
    })
}

pub open spec fn flat_fields(fs: Seq<NamedValue>) -> bool {
    forall|i: int| 0 <= i < fs.len() ==> #[trigger] flat_field(fs[i])
}

/// No class is registered under the types of the fields' values.
pub open spec fn unregistered(meta: Map<Seq<u8>, ClassMetaView>, fs: Seq<NamedValue>) -> bool {
    forall|i: int| 0 <= i < fs.len() ==> !meta.contains_key(#[trigger] utf8(fs[i].value_type))
}

/// A field of the top object that reads back: an `i32` or a short string of
/// a type with no registered class, or an object whose type's class is
/// registered with a short Java name other than `java.lang.Object` and whose
/// fields are flat, of types with no registered class.
pub open spec fn top_value(meta: Map<Seq<u8>, ClassMetaView>, f: NamedValue) -> bool {
    let cn = utf8(f.value_type);
    match f.value {
        FieldValue::I32(_) => !meta.contains_key(cn),
        FieldValue::Str(t) => short(utf8(t)) && !meta.contains_key(cn),
        FieldValue::Object(o) => {
            &&& meta.contains_key(cn)
            &&& meta[cn].java_name != java_lang_object()
            &&& short(meta[cn].java_name)
            &&& flat_fields(o.fields@)
            &&& unregistered(meta, o.fields@)
        },
        _ => false,
    }
}

pub open spec fn top_fields(meta: Map<Seq<u8>, ClassMetaView>, fs: Seq<NamedValue>) -> bool {
    forall|i: int| 0 <= i < fs.len() ==> #[trigger] top_value(meta, fs[i])
}

/// The bytes of a flat value.
pub open spec fn enc_flat_value(v: FieldValue) -> Seq<u8> {
    match v {
        FieldValue::I32(x) => be32(x as u32),
        FieldValue::Str(t) => string_record(utf8(t)),
        _ => Seq::empty(),
    }
}

pub open spec fn enc_flat_values(fs: Seq<NamedValue>) -> Seq<u8>
    decreases fs.len(),
{
    if fs.len() == 0 {
        Seq::empty()
    } else {
        enc_flat_values(fs.drop_last()) + enc_flat_value(fs.last().value)
    }
}

/// The descriptor of a flat field inside a nested object.
pub open spec fn enc_desc(f: NamedValue) -> Seq<u8> {
    field_descriptor(if f.value is I32 { 73u8 } else { 76u8 }, utf8(f.name))
}

pub open spec fn enc_descs(fs: Seq<NamedValue>) -> Seq<u8>
    decreases fs.len(),
{
    if fs.len() == 0 {
        Seq::empty()
    } else {
        enc_descs(fs.drop_last()) + enc_desc(fs.last())
    }
}

/// The bytes of a field of the top object.
pub open spec fn enc_top_value(meta: Map<Seq<u8>, ClassMetaView>, f: NamedValue) -> Seq<u8> {
    match f.value {
        FieldValue::Object(o) => object_header(meta[utf8(f.value_type)]) + enc_descs(o.fields@)
            + object_trailer() + enc_flat_values(o.fields@),
        v => enc_flat_value(v),
    }
}

pub open spec fn enc_top_values(meta: Map<Seq<u8>, ClassMetaView>, fs: Seq<NamedValue>) -> Seq<u8>
    decreases fs.len(),
{
    if fs.len() == 0 {
        Seq::empty()
    } else {
        enc_top_values(meta, fs.drop_last()) + enc_top_value(meta, fs.last())
    }
}

/// Inside a nested object, flat fields put their descriptors out and hold
/// their values back.
proof fn lemma_write_flat_fields(s: JvmState, fs: Seq<NamedValue>)
    requires
        s.inner,
        !s.inner_is_object,
        flat_fields(fs),
        unregistered(s.metadata, fs),
    ensures
        ser_fields(s, fs) == (JvmState {
            buf: s.buf + enc_descs(fs),
            value_buf: s.value_buf + enc_flat_values(fs),
            ..s
        }),
    decreases fs.len(),
{
    if fs.len() == 0 {
        assert(s.buf + enc_descs(fs) =~= s.buf);
        assert(s.value_buf + enc_flat_values(fs) =~= s.value_buf);
    } else {
        let init = fs.drop_last();
        let f = fs.last();
        assert(flat_fields(init)) by {
            assert forall|i: int| 0 <= i < init.len() implies #[trigger] flat_field(init[i]) by {
                assert(flat_field(fs[i]));
            }
        }
        assert(unregistered(s.metadata, init)) by {
            assert forall|i: int| 0 <= i < init.len() implies !s.metadata.contains_key(
                #[trigger] utf8(init[i].value_type),
            ) by {
                assert(init[i] == fs[i]);
            }
        }
        assert(flat_field(fs[fs.len() - 1]));
        assert(!s.metadata.contains_key(utf8(fs[fs.len() - 1].value_type)));
        lemma_write_flat_fields(s, init);
        let s1 = ser_fields(s, init);
        assert(s1.buf + enc_desc(f) =~= s.buf + enc_descs(fs));
        assert(s1.value_buf + enc_flat_value(f.value) =~= s.value_buf + enc_flat_values(fs));
        let key = utf8(f.name);
        let cn = utf8(f.value_type);
        let goal = JvmState {
            buf: s.buf + enc_descs(fs),
            value_buf: s.value_buf + enc_flat_values(fs),
            ..s
        };
        assert(ser_fields(s, fs) == ser_field(s1, key, cn, f.value));
        match f.value {
            FieldValue::I32(x) => {
                assert(cn == name_i32());
                let s2 = ser_field_prefix(s1, key, cn);
                assert(s2 == (JvmState { buf: s1.buf + field_descriptor(73u8, key), ..s1 }));
                assert(ser_value(s2, f.value) =~= goal);
            },
            FieldValue::Str(t) => {
                assert(cn == name_string_path());
                assert(name_string_path() != name_i32()) by {
                    assert(name_string_path().len() != name_i32().len());
                }
                let s2 = ser_field_prefix(s1, key, cn);
                assert(s2 == (JvmState { buf: s1.buf + field_descriptor(76u8, key), ..s1 }));
                assert(ser_value(s2, f.value) =~= goal);
            },
            _ => {},
        }
    }
}

/// In the top object, fields that read back put out their bytes directly.
proof fn lemma_write_top_fields(s: JvmState, fs: Seq<NamedValue>)
    requires
        !s.inner,
        s.value_buf.len() == 0,
        !s.inner_is_object,
        top_fields(s.metadata, fs),
    ensures
        ser_fields(s, fs) == (JvmState { buf: s.buf + enc_top_values(s.metadata, fs), ..s }),
    decreases fs.len(),
{
    if fs.len() == 0 {
        assert(s.buf + enc_top_values(s.metadata, fs) =~= s.buf);
    } else {
        let init = fs.drop_last();
        let f = fs.last();
        let meta = s.metadata;
        assert(top_fields(meta, init)) by {
            assert forall|i: int| 0 <= i < init.len() implies #[trigger] top_value(meta, init[i]) by {
                assert(top_value(meta, fs[i]));
            }
        }
        assert(top_value(meta, fs[fs.len() - 1]));
        lemma_write_top_fields(s, init);
        let s1 = ser_fields(s, init);
        assert(s1 == (JvmState { buf: s.buf + enc_top_values(meta, init), ..s }));
        let key = utf8(f.name);
        let cn = utf8(f.value_type);
        assert(ser_fields(s, fs) == ser_field(s1, key, cn, f.value));
        match f.value {
            FieldValue::I32(x) => {
                assert(ser_field_prefix(s1, key, cn) == s1);
                assert(s1.buf + be32(x as u32) =~= s.buf + enc_top_values(meta, fs));
                assert(ser_field(s1, key, cn, f.value) =~= (JvmState {
                    buf: s.buf + enc_top_values(meta, fs),
                    ..s
                }));
            },
            FieldValue::Str(t) => {
                assert(ser_field_prefix(s1, key, cn) == s1);
                assert(s1.buf + string_record(utf8(t)) =~= s.buf + enc_top_values(meta, fs));
                assert(ser_field(s1, key, cn, f.value) =~= (JvmState {
                    buf: s.buf + enc_top_values(meta, fs),
                    ..s
                }));
            },
            FieldValue::Object(o) => {
                let m = meta[cn];
                let s2 = ser_field_prefix(s1, key, cn);
                assert(s2 == (JvmState {
                    buf: s1.buf + object_header(m),
                    inner: true,
                    ..s1
                }));
                lemma_write_flat_fields(s2, o.fields@);
                let s3 = ser_fields(s2, o.fields@);
                assert(ser_value(s2, f.value) == ser_end(s3));
                assert(s3.value_buf =~= enc_flat_values(o.fields@));
                assert(ser_end(s3).buf =~= s.buf + enc_top_values(meta, fs));
                assert(ser_end(s3).value_buf =~= Seq::<u8>::empty());
                assert(ser_end(s3) =~= (JvmState { buf: s.buf + enc_top_values(meta, fs), ..s }));
            },
            _ => {},
        }
    }
}


/// `b` stands in `buf` from position `j` on.
pub open spec fn is_at(buf: Seq<u8>, j: int, b: Seq<u8>) -> bool {
    0 <= j && j + b.len() <= buf.len() && buf.subrange(j, j + b.len()) == b
}

proof fn lemma_is_at_split(buf: Seq<u8>, j: int, a: Seq<u8>, b: Seq<u8>)
    requires
        is_at(buf, j, a + b),
    ensures
        is_at(buf, j, a),
        is_at(buf, j + a.len(), b),
{
    let whole = buf.subrange(j, j + a.len() + b.len());
    assert(whole == a + b);
    assert(buf.subrange(j, j + a.len()) =~= whole.subrange(0, a.len() as int));
    assert((a + b).subrange(0, a.len() as int) =~= a);
    assert(buf.subrange(j + a.len(), j + a.len() + b.len()) =~= whole.subrange(
        a.len() as int,
        (a.len() + b.len()) as int,
    ));
    assert((a + b).subrange(a.len() as int, (a.len() + b.len()) as int) =~= b);
}

proof fn lemma_is_at_index(buf: Seq<u8>, j: int, b: Seq<u8>, k: int)
    requires
        is_at(buf, j, b),
        0 <= k < b.len(),
    ensures
        buf[j + k] == b[k],
{
    assert(buf.subrange(j, j + b.len())[k] == buf[j + k]);
}

/// A length prefix and the bytes it counts are skipped together.
proof fn lemma_skip_counted(buf: Seq<u8>, p: int, b: Seq<u8>)
    requires
        is_at(buf, p, len_prefix(b.len()) + b),
        short(b),
    ensures
        skip_counted(buf, p) == Some(p + 2 + b.len()),
{
    lemma_len_prefix_round_trip(b.len());
    lemma_is_at_split(buf, p, len_prefix(b.len()), b);
    lemma_is_at_index(buf, p, len_prefix(b.len()), 0);
    lemma_is_at_index(buf, p, len_prefix(b.len()), 1);
}

/// A flat value reads back.
proof fn lemma_read_flat_value(buf: Seq<u8>, j: int, inner: bool, v: FieldValue)
    requires
        flat_value(v),
        is_at(buf, j, enc_flat_value(v)),
    ensures
        rd_value(buf, j, inner, value_shape(v)) == Some(
            (field_data(v), j + enc_flat_value(v).len(), inner),
        ),
{
    match v {
        FieldValue::I32(x) => {
            let e = be32(x as u32);
            lemma_is_at_index(buf, j, e, 0);
            lemma_is_at_index(buf, j, e, 1);
            lemma_is_at_index(buf, j, e, 2);
            lemma_is_at_index(buf, j, e, 3);
            lemma_u32_round_trip(x as u32);
            lemma_i32_bits(x);
        },
        FieldValue::Str(t) => {
            let b = utf8(t);
            assert(string_record(b) == seq![116u8] + (len_prefix(b.len()) + b));
            lemma_is_at_split(buf, j, seq![116u8], len_prefix(b.len()) + b);
            lemma_skip_counted(buf, j + 1, b);
            lemma_is_at_split(buf, j + 1, len_prefix(b.len()), b);
            assert(buf.subrange(j + 3, j + 3 + b.len()) == b);
            encode_utf8_valid_utf8(t@);
            encode_utf8_decode_utf8(t@);
        },
        _ => {},
    }
}

/// Flat values read back, one after the other.
proof fn lemma_read_flat_values(buf: Seq<u8>, j: int, inner: bool, fs: Seq<NamedValue>)
    requires
        flat_fields(fs),
        is_at(buf, j, enc_flat_values(fs)),
    ensures
        rd_tuple(buf, j, inner, fields_shapes(fs)) == Some(
            (fields_data(fs), j + enc_flat_values(fs).len(), inner),
        ),
    decreases fs.len(),
{
    if fs.len() == 0 {
    } else {
        let init = fs.drop_last();
        let f = fs.last();
        assert(flat_fields(init)) by {
            assert forall|i: int| 0 <= i < init.len() implies #[trigger] flat_field(init[i]) by {
                assert(flat_field(fs[i]));
            }
        }
        assert(flat_field(fs[fs.len() - 1]));
        lemma_is_at_split(buf, j, enc_flat_values(init), enc_flat_value(f.value));
        lemma_read_flat_values(buf, j, inner, init);
        lemma_read_flat_value(buf, j + enc_flat_values(init).len(), inner, f.value);
        assert(fields_shapes(fs).drop_last() == fields_shapes(init));
        assert(fields_shapes(fs).last() == value_shape(f.value));
    }
}


proof fn lemma_is_at_sub(buf: Seq<u8>, j: int, x: Seq<u8>, a: int, b: int)
    requires
        is_at(buf, j, x),
        0 <= a <= b <= x.len(),
    ensures
        is_at(buf, j + a, x.subrange(a, b)),
{
    assert(buf.subrange(j + a, j + b) =~= buf.subrange(j, j + x.len()).subrange(a, b));
}

/// Skipping `m + 1` descriptors is skipping `m`, then one more.
proof fn lemma_skip_descs_step(buf: Seq<u8>, i: int, m: nat)
    ensures
        skip_descs(buf, i, m + 1) == (match skip_descs(buf, i, m) {
            Some(j) => skip_descs(buf, j, 1),
            None => None,
        }),
    decreases m,
{
    if m > 0 && 0 <= i < buf.len() {
        match skip_counted(buf, i + 1) {
            Some(j) => {
                lemma_skip_descs_step(buf, j, (m - 1) as nat);
            },
            None => {},
        }
    }
}

proof fn lemma_fields_shapes_len(fs: Seq<NamedValue>)
    ensures
        fields_shapes(fs).len() == fs.len(),
    decreases fs.len(),
{
    if fs.len() > 0 {
        lemma_fields_shapes_len(fs.drop_last());
    }
}

/// The descriptors of flat fields are skipped.
proof fn lemma_read_descs(buf: Seq<u8>, j: int, fs: Seq<NamedValue>)
    requires
        flat_fields(fs),
        is_at(buf, j, enc_descs(fs)),
    ensures
        skip_descs(buf, j, fs.len()) == Some(j + enc_descs(fs).len()),
    decreases fs.len(),
{
    if fs.len() > 0 {
        let init = fs.drop_last();
        let f = fs.last();
        assert(flat_fields(init)) by {
            assert forall|i: int| 0 <= i < init.len() implies #[trigger] flat_field(init[i]) by {
                assert(flat_field(fs[i]));
            }
        }
        assert(flat_field(fs[fs.len() - 1]));
        lemma_is_at_split(buf, j, enc_descs(init), enc_desc(f));
        lemma_read_descs(buf, j, init);
        let k = j + enc_descs(init).len();
        let name = utf8(f.name);
        let code: u8 = if f.value is I32 { 73u8 } else { 76u8 };
        assert(enc_desc(f) == seq![code] + (len_prefix(name.len()) + name));
        lemma_is_at_split(buf, k, seq![code], len_prefix(name.len()) + name);
        lemma_skip_counted(buf, k + 1, name);
        lemma_skip_descs_step(buf, j, init.len());
        assert(skip_descs(buf, k + 3 + name.len(), 0) == Some(k + 3 + name.len()));
    }
}

/// A nested object reads back: its header and descriptors are skipped and
/// its held-back values are read.
proof fn lemma_read_object(
    buf: Seq<u8>,
    j: int,
    inner: bool,
    meta: Map<Seq<u8>, ClassMetaView>,
    f: NamedValue,
)
    requires
        f.value is Object,
        top_value(meta, f),
        is_at(buf, j, enc_top_value(meta, f)),
    ensures
        rd_value(buf, j, inner, value_shape(f.value)) == Some(
            (field_data(f.value), j + enc_top_value(meta, f).len(), true),
        ),
{
    let o = f.value->Object_0;
    let fs = o.fields@;
    let m = meta[utf8(f.value_type)];
    let jn = m.java_name;
    let hdr = object_header(m);
    let x = enc_top_value(meta, f);
    let dl = enc_descs(fs).len() as int;
    let hl = hdr.len() as int;
    let jl = jn.len() as int;
    assert(hl == 15 + jn.len());
    assert(x == hdr + enc_descs(fs) + object_trailer() + enc_flat_values(fs));
    lemma_is_at_index(buf, j, x, 0);
    lemma_is_at_sub(buf, j, x, 2, 4 + jl);
    assert(x.subrange(2, 4 + jl) =~= len_prefix(jn.len()) + jn);
    lemma_skip_counted(buf, j + 2, jn);
    lemma_is_at_sub(buf, j, x, hl, hl + dl);
    assert(x.subrange(hl, hl + dl) =~= enc_descs(fs));
    lemma_read_descs(buf, j + hl, fs);
    lemma_fields_shapes_len(fs);
    lemma_is_at_sub(buf, j, x, hl + dl + 7, x.len() as int);
    assert(x.subrange(hl + dl + 7, x.len() as int) =~= enc_flat_values(fs));
    lemma_read_flat_values(buf, j + hl + dl + 7, true, fs);
}


/// The values of the top object read back, one after the other.
proof fn lemma_read_top_values(
    buf: Seq<u8>,
    j: int,
    inner: bool,
    meta: Map<Seq<u8>, ClassMetaView>,
    fs: Seq<NamedValue>,
)
    requires
        top_fields(meta, fs),
        is_at(buf, j, enc_top_values(meta, fs)),
    ensures
        rd_tuple(buf, j, inner, fields_shapes(fs)) matches Some((ds, e, _inn)) && ds
            == fields_data(fs) && e == j + enc_top_values(meta, fs).len(),
    decreases fs.len(),
{
    if fs.len() > 0 {
        let init = fs.drop_last();
        let f = fs.last();
        let v = f.value;
        assert(top_fields(meta, init)) by {
            assert forall|i: int| 0 <= i < init.len() implies #[trigger] top_value(meta, init[i]) by {
                assert(top_value(meta, fs[i]));
            }
        }
        assert(top_value(meta, fs[fs.len() - 1]));
        lemma_is_at_split(buf, j, enc_top_values(meta, init), enc_top_value(meta, f));
        lemma_read_top_values(buf, j, inner, meta, init);
        let (ds, k, inn) = rd_tuple(buf, j, inner, fields_shapes(init))->0;
        assert(fields_shapes(fs).drop_last() == fields_shapes(init));
        assert(fields_shapes(fs).last() == value_shape(v));
        if v is Object {
            lemma_read_object(buf, k, inn, meta, f);
        } else {
            lemma_read_flat_value(buf, k, inn, v);
        }
    }
}


/// The descriptors of declared fields, as the head holds them.
pub open spec fn enc_head_fields(meta: Map<Seq<u8>, ClassMetaView>, fs: Seq<FieldDesc>) -> Seq<u8>
    decreases fs.len(),
{
    if fs.len() == 0 {
        Seq::empty()
    } else {
        enc_head_fields(meta, fs.drop_last()) + head_field_bytes(meta, fs.last())
    }
}

/// A declared field whose descriptor reads back: short names, and not of a
/// class registered as `java.lang.Object`.
pub open spec fn head_field_ok(meta: Map<Seq<u8>, ClassMetaView>, f: FieldDesc) -> bool {
    &&& short(utf8(f.name))
    &&& short(jvm_type_name(meta, utf8(f.declared_type)))
    &&& !marks_object(meta, f)
}

/// A head that reads back: a short class name, fewer than 2^15 fields, and
/// descriptors that read back.
pub open spec fn head_ok(meta: Map<Seq<u8>, ClassMetaView>, d: ClassDesc) -> bool {
    &&& short(utf8(d.java_class_name))
    &&& d.fields@.len() < 0x8000
    &&& forall|i: int| 0 <= i < d.fields@.len() ==> #[trigger] head_field_ok(meta, d.fields@[i])
}

proof fn lemma_write_head_fields(s: JvmState, fs: Seq<FieldDesc>)
    requires
        forall|i: int| 0 <= i < fs.len() ==> #[trigger] head_field_ok(s.metadata, fs[i]),
    ensures
        head_fields(s, fs) == (JvmState { buf: s.buf + enc_head_fields(s.metadata, fs), ..s }),
    decreases fs.len(),
{
    if fs.len() == 0 {
        assert(s.buf + enc_head_fields(s.metadata, fs) =~= s.buf);
    } else {
        let init = fs.drop_last();
        assert forall|i: int| 0 <= i < init.len() implies #[trigger] head_field_ok(
            s.metadata,
            init[i],
        ) by {
            assert(head_field_ok(s.metadata, fs[i]));
        }
        assert(head_field_ok(s.metadata, fs[fs.len() - 1]));
        lemma_write_head_fields(s, init);
        let s1 = head_fields(s, init);
        assert(s1.buf + head_field_bytes(s.metadata, fs.last()) =~= s.buf + enc_head_fields(
            s.metadata,
            fs,
        ));
    }
}

/// Skipping `m + 1` field descriptors of the head is skipping `m`, then one more.
proof fn lemma_skip_head_fields_step(buf: Seq<u8>, i: int, m: nat)
    ensures
        skip_head_fields(buf, i, m + 1) == (match skip_head_fields(buf, i, m) {
            Some(j) => skip_head_fields(buf, j, 1),
            None => None,
        }),
    decreases m,
{
    if m > 0 {
        match skip_head_field(buf, i) {
            Some(j) => {
                lemma_skip_head_fields_step(buf, j, (m - 1) as nat);
            },
            None => {},
        }
    }
}

/// A declared field's descriptor is skipped.
proof fn lemma_read_head_field(
    buf: Seq<u8>,
    p: int,
    meta: Map<Seq<u8>, ClassMetaView>,
    f: FieldDesc,
)
    requires
        head_field_ok(meta, f),
        is_at(buf, p, head_field_bytes(meta, f)),
    ensures
        skip_head_field(buf, p) == Some(p + head_field_bytes(meta, f).len()),
{
    let t = utf8(f.declared_type);
    let name = utf8(f.name);
    let jt = jvm_type_name(meta, t);
    let x = head_field_bytes(meta, f);
    let code = type_code(t);
    let nl = name.len() as int;
    assert(code == 76u8 <==> jt.len() > 0) by {
        if primitive_code(t) is None {
            if t != name_string() {
                assert(jt.len() >= 2);
            }
        }
    }
    lemma_is_at_index(buf, p, x, 0);
    lemma_is_at_sub(buf, p, x, 1, 3 + nl);
    assert(x.subrange(1, 3 + nl) =~= len_prefix(name.len()) + name);
    lemma_skip_counted(buf, p + 1, name);
    if jt.len() > 0 {
        assert(x.len() == 3 + nl + 3 + jt.len());
        lemma_is_at_index(buf, p, x, 3 + nl);
        lemma_is_at_sub(buf, p, x, 4 + nl, x.len() as int);
        assert(x.subrange(4 + nl, x.len() as int) =~= len_prefix(jt.len()) + jt);
        lemma_skip_counted(buf, p + 4 + nl, jt);
    } else {
        assert(x.len() == 3 + nl);
    }
}

/// The declared fields' descriptors are skipped.
proof fn lemma_read_head_fields(
    buf: Seq<u8>,
    j: int,
    meta: Map<Seq<u8>, ClassMetaView>,
    fs: Seq<FieldDesc>,
)
    requires
        forall|i: int| 0 <= i < fs.len() ==> #[trigger] head_field_ok(meta, fs[i]),
        is_at(buf, j, enc_head_fields(meta, fs)),
    ensures
        skip_head_fields(buf, j, fs.len()) == Some(j + enc_head_fields(meta, fs).len()),
    decreases fs.len(),
{
    if fs.len() > 0 {
        let init = fs.drop_last();
        let f = fs.last();
        assert forall|i: int| 0 <= i < init.len() implies #[trigger] head_field_ok(meta, init[i]) by {
            assert(head_field_ok(meta, fs[i]));
        }
        assert(head_field_ok(meta, fs[fs.len() - 1]));
        lemma_is_at_split(buf, j, enc_head_fields(meta, init), head_field_bytes(meta, f));
        lemma_read_head_fields(buf, j, meta, init);
        let k = j + enc_head_fields(meta, init).len();
        lemma_read_head_field(buf, k, meta, f);
        let e = k + head_field_bytes(meta, f).len();
        assert(skip_head_fields(buf, e, 0) == Some(e));
        assert(skip_head_fields(buf, k, 1) == Some(e));
        lemma_skip_head_fields_step(buf, j, init.len());
    }
}

/// A head that reads back is skipped whole.
proof fn lemma_read_head(buf: Seq<u8>, meta: Map<Seq<u8>, ClassMetaView>, d: ClassDesc)
    requires
        head_ok(meta, d),
        is_at(buf, 0, head_prefix(d) + enc_head_fields(meta, d.fields@) + seq![120u8, 112u8]),
    ensures
        rd_head(buf) == Some(
            (head_prefix(d) + enc_head_fields(meta, d.fields@) + seq![120u8, 112u8]).len() as int,
        ),
{
    let jn = utf8(d.java_class_name);
    let jl = jn.len() as int;
    let fs = d.fields@;
    let hf = enc_head_fields(meta, fs);
    let x = head_prefix(d) + hf + seq![120u8, 112u8];
    assert(head_prefix(d).len() == 20 + jl);
    lemma_is_at_sub(buf, 0, x, 7, 9 + jl);
    assert(x.subrange(7, 9 + jl) =~= len_prefix(jn.len()) + jn);
    lemma_skip_counted(buf, 7, jn);
    let j = 18 + jl;
    lemma_is_at_sub(buf, 0, x, j, j + 2);
    assert(x.subrange(j, j + 2) =~= len_prefix(fs.len()));
    lemma_len_prefix_round_trip(fs.len());
    lemma_is_at_index(buf, j, len_prefix(fs.len()), 0);
    lemma_is_at_index(buf, j, len_prefix(fs.len()), 1);
    lemma_is_at_sub(buf, 0, x, j + 2, j + 2 + hf.len());
    assert(x.subrange(j + 2, j + 2 + hf.len()) =~= hf);
    lemma_read_head_fields(buf, j + 2, meta, fs);
}


/// A flat value whose first byte is not 115 (`TC_OBJECT`), which a reader
/// would take for a nested object's header.
pub open spec fn first_byte_ok(v: FieldValue) -> bool {
    match v {
        FieldValue::I32(x) => ((x as u32) >> 24u32) as u8 != 115u8,
        FieldValue::Str(_) => true,
        _ => false,
    }
}

/// The top object has a first field that a reader does not misread: a flat
/// value whose first byte is not 115, or a nested object with as many fields
/// as the top object whose own first value's first byte is not 115 (its
/// header is then read as if it were the top object's).
pub open spec fn first_field_ok(fs: Seq<NamedValue>) -> bool {
    &&& fs.len() > 0
    &&& match fs[0].value {
        FieldValue::Object(o) => o.fields@.len() == fs.len() && first_byte_ok(o.fields@[0].value),
        v => first_byte_ok(v),
    }
}

/// What makes an object read back: the head reads back; each field is an
/// `i32` or a short string of a type with no registered class, or an object
/// of a registered class other than `java.lang.Object` whose fields are
/// `i32`s and short strings, of types `i32` and `alloc::string::String`,
/// with short names; and the first field is not misread.
pub open spec fn round_trip_ok(d: ClassDesc, o: ObjectValue) -> bool {
    let meta = build_meta(Map::empty(), d);
    &&& head_ok(meta, d)
    &&& top_fields(meta, o.fields@)
    &&& first_field_ok(o.fields@)
}

proof fn lemma_enc_top_values_first(meta: Map<Seq<u8>, ClassMetaView>, fs: Seq<NamedValue>)
    requires
        fs.len() > 0,
        enc_top_value(meta, fs[0]).len() > 0,
    ensures
        enc_top_values(meta, fs).len() > 0,
        enc_top_values(meta, fs)[0] == enc_top_value(meta, fs[0])[0],
    decreases fs.len(),
{
    if fs.len() > 1 {
        let init = fs.drop_last();
        assert(init[0] == fs[0]);
        lemma_enc_top_values_first(meta, init);
    } else {
        assert(fs.drop_last().len() == 0);
        assert(enc_top_values(meta, fs.drop_last()) == Seq::<u8>::empty());
        assert(fs.last() == fs[0]);
        assert(enc_top_values(meta, fs) =~= enc_top_value(meta, fs[0]));
    }
}

/// The bytes written for an object that reads back: its head, then its
/// fields' bytes.
proof fn lemma_write_stream_parts(d: ClassDesc, o: ObjectValue)
    requires
        round_trip_ok(d, o),
    ensures
        write_stream(d, o) == head_prefix(d) + enc_head_fields(build_meta(Map::empty(), d), d.fields@)
            + seq![120u8, 112u8] + enc_top_values(build_meta(Map::empty(), d), o.fields@),
{
    let meta = build_meta(Map::empty(), d);
    let fs = o.fields@;
    let s1 = JvmState { metadata: meta, ..fresh_state(Seq::empty()) };
    lemma_write_head_fields(append_out(s1, head_prefix(d)), d.fields@);
    let hf = enc_head_fields(meta, d.fields@);
    let h = head_prefix(d) + hf + seq![120u8, 112u8];
    let s2 = write_head_state(s1, d);
    assert(s2.buf =~= h);
    assert(s2 == (JvmState { buf: h, ..s1 }));
    lemma_write_top_fields(s2, fs);
    let s3 = ser_fields(s2, fs);
    assert(ser_end(s3).buf =~= h + enc_top_values(meta, fs));
}

proof fn lemma_enc_top_values_front(meta: Map<Seq<u8>, ClassMetaView>, fs: Seq<NamedValue>)
    requires
        fs.len() > 0,
    ensures
        enc_top_values(meta, fs) == enc_top_value(meta, fs[0]) + enc_top_values(
            meta,
            fs.drop_first(),
        ),
    decreases fs.len(),
{
    if fs.len() == 1 {
        assert(fs.drop_last() =~= Seq::<NamedValue>::empty());
        assert(fs.drop_first() =~= Seq::<NamedValue>::empty());
        assert(enc_top_values(meta, Seq::<NamedValue>::empty()) == Seq::<u8>::empty());
        assert(fs.last() == fs[0]);
        assert(enc_top_values(meta, fs) =~= enc_top_value(meta, fs[0]) + enc_top_values(
            meta,
            fs.drop_first(),
        ));
    } else {
        let init = fs.drop_last();
        lemma_enc_top_values_front(meta, init);
        assert(init.drop_first() =~= fs.drop_first().drop_last());
        assert(fs.drop_first().last() == fs.last());
        assert(init[0] == fs[0]);
        assert(enc_top_values(meta, fs) =~= enc_top_value(meta, fs[0]) + enc_top_values(
            meta,
            fs.drop_first(),
        ));
    }
}

proof fn lemma_fields_front(fs: Seq<NamedValue>)
    requires
        fs.len() > 0,
    ensures
        fields_shapes(fs) == seq![value_shape(fs[0].value)] + fields_shapes(fs.drop_first()),
        fields_data(fs) == seq![field_data(fs[0].value)] + fields_data(fs.drop_first()),
    decreases fs.len(),
{
    if fs.len() == 1 {
        assert(fs.drop_last() =~= Seq::<NamedValue>::empty());
        assert(fs.drop_first() =~= Seq::<NamedValue>::empty());
        assert(fields_shapes(Seq::<NamedValue>::empty()) == Seq::<ShapeModel>::empty());
        assert(fields_data(Seq::<NamedValue>::empty()) == Seq::<Data>::empty());
        assert(fs.last() == fs[0]);
        assert(fields_shapes(fs) =~= seq![value_shape(fs[0].value)] + fields_shapes(fs.drop_first()));
        assert(fields_data(fs) =~= seq![field_data(fs[0].value)] + fields_data(fs.drop_first()));
    } else {
        let init = fs.drop_last();
        lemma_fields_front(init);
        assert(init.drop_first() =~= fs.drop_first().drop_last());
        assert(fs.drop_first().last() == fs.last());
        assert(init[0] == fs[0]);
        assert(fields_shapes(fs) =~= seq![value_shape(fs[0].value)] + fields_shapes(fs.drop_first()));
        assert(fields_data(fs) =~= seq![field_data(fs[0].value)] + fields_data(fs.drop_first()));
    }
}

/// Reading values one after the other is reading the first, then the rest.
proof fn lemma_rd_tuple_front(buf: Seq<u8>, i: int, inner: bool, shapes: Seq<ShapeModel>)
    requires
        shapes.len() > 0,
    ensures
        rd_tuple(buf, i, inner, shapes) == (match rd_value(buf, i, inner, shapes[0]) {
            Some((d, j, inn)) => match rd_tuple(buf, j, inn, shapes.drop_first()) {
                Some((ds, e, inn2)) => Some((seq![d] + ds, e, inn2)),
                None => None,
            },
            None => None,
        }),
    decreases shapes.len(),
{
    if shapes.len() == 1 {
        assert(shapes.drop_last() =~= Seq::<ShapeModel>::empty());
        assert(shapes.drop_first() =~= Seq::<ShapeModel>::empty());
        assert(shapes.last() == shapes[0]);
        assert(rd_tuple(buf, i, inner, Seq::<ShapeModel>::empty()) == Some(
            (Seq::<Data>::empty(), i, inner),
        ));
        match rd_value(buf, i, inner, shapes[0]) {
            Some((d, j, inn)) => {
                assert(rd_tuple(buf, j, inn, Seq::<ShapeModel>::empty()) == Some(
                    (Seq::<Data>::empty(), j, inn),
                ));
                assert(Seq::<Data>::empty().push(d) =~= seq![d] + Seq::<Data>::empty());
            },
            None => {},
        }
    } else {
        let init = shapes.drop_last();
        lemma_rd_tuple_front(buf, i, inner, init);
        assert(init.drop_first() =~= shapes.drop_first().drop_last());
        assert(shapes.drop_first().last() == shapes.last());
        assert(init[0] == shapes[0]);
        match rd_value(buf, i, inner, shapes[0]) {
            Some((d, j, inn)) => {
                match rd_tuple(buf, j, inn, init.drop_first()) {
                    Some((ds, k, inn2)) => {
                        match rd_value(buf, k, inn2, shapes.last()) {
                            Some((d2, e, inn3)) => {
                                assert((seq![d] + ds).push(d2) =~= seq![d] + ds.push(d2));
                            },
                            None => {},
                        }
                    },
                    None => {},
                }
            },
            None => {},
        }
    }
}

/// The fields' bytes read back as the top object, where the first is a
/// nested object with as many fields as the top object.
proof fn lemma_read_body_object_first(
    buf: Seq<u8>,
    i: int,
    meta: Map<Seq<u8>, ClassMetaView>,
    fs: Seq<NamedValue>,
)
    requires
        top_fields(meta, fs),
        first_field_ok(fs),
        fs[0].value is Object,
        is_at(buf, i, enc_top_values(meta, fs)),
    ensures
        rd_value(buf, i, false, ShapeModel::Object(fields_shapes(fs))) matches Some((d, _j, _inn))
            && d == Data::Object(fields_data(fs)),
{
    let v0 = fs[0].value;
    let o = v0->Object_0;
    let nfs = o.fields@;
    assert(top_value(meta, fs[0]));
    let m = meta[utf8(fs[0].value_type)];
    let jn = m.java_name;
    let jl = jn.len() as int;
    let hdr = object_header(m);
    let hl = hdr.len() as int;
    let dl = enc_descs(nfs).len() as int;
    let vals = enc_flat_values(nfs);
    let x = enc_top_value(meta, fs[0]);
    assert(hl == 15 + jl);
    assert(x == hdr + enc_descs(nfs) + object_trailer() + vals);
    lemma_enc_top_values_front(meta, fs);
    let rest = enc_top_values(meta, fs.drop_first());
    lemma_is_at_split(buf, i, x, rest);
    // the nested header is read as the top object's
    lemma_is_at_index(buf, i, x, 0);
    lemma_is_at_sub(buf, i, x, 2, 4 + jl);
    assert(x.subrange(2, 4 + jl) =~= len_prefix(jn.len()) + jn);
    lemma_skip_counted(buf, i + 2, jn);
    lemma_is_at_sub(buf, i, x, hl, hl + dl);
    assert(x.subrange(hl, hl + dl) =~= enc_descs(nfs));
    lemma_read_descs(buf, i + hl, nfs);
    lemma_fields_shapes_len(fs);
    let p = i + hl + dl + 7;
    assert(rd_struct_prefix(buf, i, fields_shapes(fs).len()) == Some((p, true)));
    // then the nested object's values, read without a header
    lemma_is_at_sub(buf, i, x, hl + dl + 7, x.len() as int);
    assert(x.subrange(hl + dl + 7, x.len() as int) =~= vals);
    assert(nfs.len() > 0);
    assert(flat_field(nfs[0]));
    lemma_enc_flat_values_first(nfs);
    lemma_is_at_index(buf, p, vals, 0);
    lemma_fields_shapes_len(nfs);
    assert(rd_struct_prefix(buf, p, fields_shapes(nfs).len()) == Some((p, false)));
    lemma_read_flat_values(buf, p, true, nfs);
    let q = p + vals.len();
    assert(q == i + x.len());
    assert(rd_value(buf, p, true, value_shape(v0)) == Some((field_data(v0), q, true)));
    // then the remaining fields
    assert(top_fields(meta, fs.drop_first())) by {
        assert forall|k: int| 0 <= k < fs.drop_first().len() implies #[trigger] top_value(
            meta,
            fs.drop_first()[k],
        ) by {
            assert(top_value(meta, fs[k + 1]));
        }
    }
    lemma_read_top_values(buf, q, true, meta, fs.drop_first());
    lemma_fields_front(fs);
    let shapes = fields_shapes(fs);
    lemma_rd_tuple_front(buf, p, true, shapes);
    assert(shapes[0] == value_shape(v0));
    assert(shapes.drop_first() =~= fields_shapes(fs.drop_first()));
    let (ds, e, inn) = rd_tuple(buf, q, true, fields_shapes(fs.drop_first()))->0;
    assert(rd_tuple(buf, p, true, shapes) == Some((seq![field_data(v0)] + ds, e, inn)));
    assert(seq![field_data(v0)] + ds == fields_data(fs));
}

proof fn lemma_enc_flat_values_first(fs: Seq<NamedValue>)
    requires
        fs.len() > 0,
        first_byte_ok(fs[0].value),
    ensures
        enc_flat_values(fs).len() > 0,
        enc_flat_values(fs)[0] != 115u8,
    decreases fs.len(),
{
    if fs.len() > 1 {
        let init = fs.drop_last();
        assert(init[0] == fs[0]);
        lemma_enc_flat_values_first(init);
    } else {
        assert(fs.drop_last() =~= Seq::<NamedValue>::empty());
        assert(enc_flat_values(Seq::<NamedValue>::empty()) == Seq::<u8>::empty());
        assert(fs.last() == fs[0]);
        assert(enc_flat_values(fs) =~= enc_flat_value(fs[0].value));
        match fs[0].value {
            FieldValue::I32(x) => {
                assert(enc_flat_value(fs[0].value)[0] == ((x as u32) >> 24u32) as u8);
            },
            _ => {},
        }
    }
}

/// The fields' bytes read back as the top object.
proof fn lemma_read_body(buf: Seq<u8>, i: int, meta: Map<Seq<u8>, ClassMetaView>, fs: Seq<NamedValue>)
    requires
        top_fields(meta, fs),
        first_field_ok(fs),
        is_at(buf, i, enc_top_values(meta, fs)),
    ensures
        rd_value(buf, i, false, ShapeModel::Object(fields_shapes(fs))) matches Some((d, _j, _inn))
            && d == Data::Object(fields_data(fs)),
{
    let body = enc_top_values(meta, fs);
    let v0 = fs[0].value;
    assert(top_value(meta, fs[0]));
    if v0 is Object {
        lemma_read_body_object_first(buf, i, meta, fs);
    } else {
        match v0 {
            FieldValue::I32(x) => {
                assert(enc_top_value(meta, fs[0])[0] == ((x as u32) >> 24u32) as u8);
            },
            FieldValue::Str(t) => {
                assert(enc_top_value(meta, fs[0])[0] == 116u8);
            },
            _ => {},
        }
        lemma_enc_top_values_first(meta, fs);
        lemma_is_at_index(buf, i, body, 0);
        assert(rd_struct_prefix(buf, i, fields_shapes(fs).len()) == Some((i, false)));
        lemma_read_top_values(buf, i, false, meta, fs);
    }
}

/// Reading back what was written gives the data written: for an object
/// described by `d` whose data is `o`, reading the bytes of `o` written with
/// `d`, as a type of `o`'s shape, gives `o`'s field values.
pub proof fn lemma_write_read_round_trip(d: ClassDesc, o: ObjectValue)
    requires
        round_trip_ok(d, o),
    ensures
        read_stream(write_stream(d, o), object_shape(o)) == Some(object_data(o)),
{
    let meta = build_meta(Map::empty(), d);
    let fs = o.fields@;
    let h = head_prefix(d) + enc_head_fields(meta, d.fields@) + seq![120u8, 112u8];
    let body = enc_top_values(meta, fs);
    lemma_write_stream_parts(d, o);
    let buf = write_stream(d, o);
    assert(is_at(buf, 0, h)) by {
        assert(buf.subrange(0, h.len() as int) =~= h);
    }
    lemma_read_head(buf, meta, d);
    let i = h.len() as int;
    assert(is_at(buf, i, body)) by {
        assert(buf.subrange(i, i + body.len()) =~= body);
    }
    lemma_read_body(buf, i, meta, fs);
}


/// An `i32` written outside a nested object reads back from where it was written.
pub proof fn lemma_i32_round_trip(s: JvmState, x: i32, rest: Seq<u8>)
    requires
        !s.inner,
    ensures
        rd_i32(ser_value(s, FieldValue::I32(x)).buf + rest, s.buf.len() as int) == Some(
            (x, s.buf.len() + 4int),
        ),
{
    let buf = ser_value(s, FieldValue::I32(x)).buf + rest;
    let i = s.buf.len() as int;
    assert(buf.subrange(i, i + 4) =~= be32(x as u32));
    lemma_read_flat_value(buf, i, false, FieldValue::I32(x));
}

/// A string of fewer than 2^15 bytes, written outside a nested object, reads
/// back from where it was written.
pub proof fn lemma_string_round_trip(s: JvmState, t: String, rest: Seq<u8>)
    requires
        !s.inner,
        short(utf8(t)),
    ensures
        rd_string(ser_value(s, FieldValue::Str(t)).buf + rest, s.buf.len() as int) == Some(
            (t@, (s.buf.len() + string_record(utf8(t)).len()) as int),
        ),
{
    let buf = ser_value(s, FieldValue::Str(t)).buf + rest;
    let i = s.buf.len() as int;
    let r = string_record(utf8(t));
    assert(buf.subrange(i, i + r.len()) =~= r);
    lemma_read_flat_value(buf, i, false, FieldValue::Str(t));
}

/// Reading an `i32` inverts writing one: wherever the four big-endian bytes
/// of `x` stand, whatever comes before and after them, they read back as `x`.
pub proof fn lemma_read_i32_inverse(p: Seq<u8>, x: i32, q: Seq<u8>)
    ensures
        rd_i32(p + be32(x as u32) + q, p.len() as int) == Some((x, p.len() + 4int)),
{
    let buf = p + be32(x as u32) + q;
    let i = p.len() as int;
    assert(buf.subrange(i, i + 4) =~= be32(x as u32));
    lemma_read_flat_value(buf, i, false, FieldValue::I32(x));
}

/// Reading a string inverts writing one: wherever a tag byte, the 2-byte
/// length and the UTF-8 bytes of a string of fewer than 2^15 bytes stand,
/// whatever the tag and whatever comes before and after, they read back as
/// that string, and reading goes on right after its bytes.
pub proof fn lemma_read_string_inverse(p: Seq<u8>, tag: u8, t: String, q: Seq<u8>)
    requires
        short(utf8(t)),
    ensures
        rd_string(p + seq![tag] + len_prefix(utf8(t).len()) + utf8(t) + q, p.len() as int)
            == Some((t@, p.len() + 3 + utf8(t).len() as int)),
{
    let b = utf8(t);
    let buf = p + seq![tag] + len_prefix(b.len()) + b + q;
    let i = p.len() as int;
    assert(buf.subrange(i + 1, i + 3 + b.len()) =~= len_prefix(b.len()) + b);
    lemma_skip_counted(buf, i + 1, b);
    assert(buf.subrange(i + 3, i + 3 + b.len()) =~= b);
    encode_utf8_valid_utf8(t@);
    encode_utf8_decode_utf8(t@);
}

/// A head that reads back is skipped whole by a reader: reading goes on
/// right after what `write_head` wrote.
pub proof fn lemma_head_round_trip(s: JvmState, d: ClassDesc, rest: Seq<u8>)
    requires
        s.buf.len() == 0,
        !s.inner_is_object,
        head_ok(s.metadata, d),
    ensures
        rd_head(write_head_state(s, d).buf + rest) == Some(write_head_state(s, d).buf.len() as int),
{
    let meta = s.metadata;
    lemma_write_head_fields(append_out(s, head_prefix(d)), d.fields@);
    let h = head_prefix(d) + enc_head_fields(meta, d.fields@) + seq![120u8, 112u8];
    assert(write_head_state(s, d).buf =~= h);
    let buf = h + rest;
    assert(is_at(buf, 0, h)) by {
        assert(buf.subrange(0, h.len() as int) =~= h);
    }
    lemma_read_head(buf, meta, d);
}

} // verus!

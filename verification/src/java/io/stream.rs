//! Object streams: whole objects in, bytes out, and back.
use vstd::prelude::*;
use crate::java::io::deserializer::{rd_head, rd_value};
use crate::java::io::head::{
    build_meta, head_fields, head_prefix, lemma_head_fields_only_append, well_named,
    write_head_state,
};
use crate::java::io::model::{ClassDesc, Data, ObjectValue, Shape, ShapeModel, Value};
use crate::java::io::serializer::{
    append_out, fresh_state, lemma_fields_only_append, lemma_prefix_trans, ser_end, ser_fields,
    JvmSerializer, JvmState,
};

verus! {

/// The bytes that writing an object gives: the table of its class and the
/// classes of its items is built, the head is written from its description,
/// then its fields and the end of the struct.
pub open spec fn write_stream(d: ClassDesc, o: ObjectValue) -> Seq<u8> {
    let s1 = JvmState {
        metadata: build_meta(Map::empty(), d),
        ..fresh_state(Seq::empty())
    };
    let s2 = write_head_state(s1, d);
    ser_end(ser_fields(s2, o.fields@)).buf
}

/// Every stream written starts with a zero byte, the stream magic `0xACED`,
/// the stream version 5, `TC_OBJECT` and `TC_CLASSDESC`.
pub proof fn lemma_stream_starts_with_magic(d: ClassDesc, o: ObjectValue)
    ensures
        seq![0u8, 172, 237, 0, 5, 115, 114].is_prefix_of(write_stream(d, o)),
{
    let magic = seq![0u8, 172, 237, 0, 5, 115, 114];
    let s1 = JvmState { metadata: build_meta(Map::empty(), d), ..fresh_state(Seq::empty()) };
    let a = append_out(s1, head_prefix(d));
    assert(a.buf.subrange(0, 7) =~= magic);
    lemma_head_fields_only_append(a, d.fields@);
    let h = head_fields(a, d.fields@);
    lemma_prefix_trans(magic, a.buf, h.buf);
    let s2 = write_head_state(s1, d);
    assert(h.buf.is_prefix_of(s2.buf)) by {
        assert(s2.buf.subrange(0, h.buf.len() as int) =~= h.buf);
    }
    lemma_prefix_trans(magic, h.buf, s2.buf);
    lemma_fields_only_append(s2, o.fields@);
    let s3 = ser_fields(s2, o.fields@);
    lemma_prefix_trans(magic, s2.buf, s3.buf);
    assert(s3.buf.is_prefix_of(ser_end(s3).buf)) by {
        assert(ser_end(s3).buf.subrange(0, s3.buf.len() as int) =~= s3.buf);
    }
    lemma_prefix_trans(magic, s3.buf, ser_end(s3).buf);
}

/// What reading a stream gives for a type of the given shape: the head is
/// skipped, then a value of that shape is read.
pub open spec fn read_stream(buf: Seq<u8>, shape: ShapeModel) -> Option<Data> {
    match rd_head(buf) {
        Some(i) => match rd_value(buf, i, false, shape) {
            Some((d, _j, _inner)) => Some(d),
            None => None,
        },
        None => None,
    }
}

/// Collects the bytes of a written object.
pub struct ObjectOutputStream {
    bout: Vec<u8>,
}

impl View for ObjectOutputStream {
    type V = Seq<u8>;

    closed spec fn view(&self) -> Seq<u8> {
        self.bout@
    }
}

impl ObjectOutputStream {
    pub fn new() -> (s: ObjectOutputStream)
        ensures
            s@ == Seq::<u8>::empty(),
    {
        ObjectOutputStream { bout: Vec::new() }
    }

    /// Writes the object described by `desc` with the data `object`; the
    /// stream then holds exactly its bytes.
    pub fn write_object(&mut self, desc: &ClassDesc, object: &ObjectValue)
        requires
            well_named(*desc),
        ensures
            final(self)@ == write_stream(*desc, *object),
    {
        self.write_object0(desc, object);
    }

    /// Writes the object described by `desc` with the data `object`; the
    /// stream then holds exactly its bytes.
    pub fn write_object0(&mut self, desc: &ClassDesc, object: &ObjectValue)
        requires
            well_named(*desc),
        ensures
            final(self)@ == write_stream(*desc, *object),
    {
        let mut jvm_ser = JvmSerializer::new();
        jvm_ser.build_metadata(Some(desc));
        jvm_ser.write_head(desc);
        let ghost start = jvm_ser@;
        let mut c = jvm_ser.serialize_struct();
        let mut i: usize = 0;
        while i < object.fields.len()
            invariant
                0 <= i <= object.fields@.len(),
                (*c.ser)@ == ser_fields(start, object.fields@.take(i as int)),
                *final(c.ser) == after_borrow(jvm_ser),
            decreases object.fields@.len() - i,
        {
            let f = &object.fields[i];
            c.serialize_field(f.name.as_str(), f.value_type.as_str(), &f.value);
            assert(object.fields@.take(i + 1).drop_last() =~= object.fields@.take(i as int));
            i = i + 1;
        }
        assert(object.fields@.take(i as int) =~= object.fields@);
        c.end();
        self.bout = jvm_ser.into_bytes();
    }

    /// A copy of the bytes written.
    pub fn to_byte_array(&self) -> (r: Vec<u8>)
        ensures
            r@ == self@,
    {
        self.bout.clone()
    }
}

/// Reads objects back from bytes.
pub struct ObjectInputStream {}

impl ObjectInputStream {
    pub fn new() -> ObjectInputStream {
        ObjectInputStream {  }
    }

    /// Reads an object of the given shape from `data`: the head is skipped,
    /// then the object's values are read. Data that ends early, or holds a
    /// negative length where one is read, is left out (see `can_read_object`).
    pub fn read_object(&mut self, data: Vec<u8>, shape: &Shape) -> (v: Value)
        requires
            data@.len() + 64 <= usize::MAX,
            read_stream(data@, shape@) is Some,
        ensures
            read_stream(data@, shape@) == Some(v@),
    {
        let mut jvm_ser = JvmSerializer::reader(data);
        jvm_ser.read_head();
        jvm_ser.deserialize_value(shape)
    }

    /// Whether `data` holds an object of the given shape that `read_object`
    /// can read.
    pub fn can_read_object(&self, data: &Vec<u8>, shape: &Shape) -> (r: bool)
        requires
            data@.len() + 64 <= usize::MAX,
        ensures
            r == read_stream(data@, shape@) is Some,
    {
        let mut jvm_ser = JvmSerializer::reader(data.clone());
        if jvm_ser.can_read_head() {
            jvm_ser.read_head();
            jvm_ser.can_read_value(shape)
        } else {
            false
        }
    }
}

} // verus!

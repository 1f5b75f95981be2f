//! The class descriptions: the table built from them and the stream head.
use vstd::prelude::*;
use crate::java::io::bytes::{
    be16, be64, be_value, lemma_be16_value, lemma_be64_value, len_prefix, push_all, push_be64,
    push_len_prefix,
};
use crate::java::io::metadata::{ClassMeta, ClassMetaView};
use crate::java::io::model::{
    is_java_lang_object, is_string_type, java_lang_object, java_string_descriptor, name_string,
    primitive_code, primitive_code_of, string_bytes, string_bytes_vec, utf8, ClassDesc, FieldDesc,
};
use crate::java::io::serializer::{append_out, string_record, JvmSerializer, JvmState};

verus! {

/// Whether `::` starts at `i` in `s`.
pub open spec fn is_sep_at(s: Seq<u8>, i: int) -> bool {
    0 <= i && i + 1 < s.len() && s[i] == 58u8 && s[i + 1] == 58u8
}

/// Whether `s` holds `::`.
pub open spec fn has_path_sep(s: Seq<u8>) -> bool {
    exists|i: int| is_sep_at(s, i)
}

/// Where the last `::` of `s` starts.
pub open spec fn last_sep(s: Seq<u8>) -> int {
    choose|i: int| is_sep_at(s, i) && forall|j: int| is_sep_at(s, j) ==> j <= i
}

/// What follows the last `::` of a Rust path: the type's own name.
pub open spec fn short_name(s: Seq<u8>) -> Seq<u8> {
    s.subrange(last_sep(s) + 2, s.len() as int)
}

/// The table entry of a described class.
pub open spec fn meta_of(d: ClassDesc) -> ClassMetaView {
    ClassMetaView {
        java_name: utf8(d.java_class_name),
        uid: d.serial_version_uid,
        field_count: (d.fields@.len() % 0x10000) as u16,
    }
}

/// The table after registering a class under its full and its short name,
/// then its items, in order.
pub open spec fn build_meta(m: Map<Seq<u8>, ClassMetaView>, d: ClassDesc) -> Map<
    Seq<u8>,
    ClassMetaView,
>
    decreases d, 1int,
{
    let name = utf8(d.rust_type_name);
    build_meta_items(m.insert(name, meta_of(d)).insert(short_name(name), meta_of(d)), d.items@)
}

/// The table after registering each of `ds`, in order.
pub open spec fn build_meta_items(m: Map<Seq<u8>, ClassMetaView>, ds: Seq<ClassDesc>) -> Map<
    Seq<u8>,
    ClassMetaView,
>
    decreases ds, 0int,
{
    if ds.len() == 0 {
        m
    } else {
        build_meta(build_meta_items(m, ds.drop_last()), ds.last())
    }
}

/// Every class in the description has a Rust path with `::` in it.
pub open spec fn well_named(d: ClassDesc) -> bool
    decreases d, 1int,
{
    has_path_sep(utf8(d.rust_type_name)) && items_well_named(d.items@)
}

/// Every class in `ds` is `well_named`.
pub open spec fn items_well_named(ds: Seq<ClassDesc>) -> bool
    decreases ds, 0int,
{
    ds.len() == 0 || (items_well_named(ds.drop_last()) && well_named(ds.last()))
}

/// The head up to the field descriptors: a zero byte, the stream magic and
/// version, `TC_OBJECT`, `TC_CLASSDESC`, the class name, the serial version
/// UID, the flags and the number of fields.
pub open spec fn head_prefix(d: ClassDesc) -> Seq<u8> {
    seq![0u8, 172, 237, 0, 5, 115, 114] + len_prefix(utf8(d.java_class_name).len()) + utf8(
        d.java_class_name,
    ) + be64(d.serial_version_uid) + seq![2u8] + len_prefix(d.fields@.len())
}

/// `b` with each `.` turned into `/`.
pub open spec fn dots_to_slashes(b: Seq<u8>) -> Seq<u8> {
    Seq::new(b.len(), |i: int| if b[i] == 46u8 { 47u8 } else { b[i] })
}

/// The type code written for a declared type.
pub open spec fn type_code(t: Seq<u8>) -> u8 {
    match primitive_code(t) {
        Some(c) => c,
        None => 76u8,
    }
}

/// The JVM type name written after a field of declared type `t` (empty for primitives).
pub open spec fn jvm_type_name(meta: Map<Seq<u8>, ClassMetaView>, t: Seq<u8>) -> Seq<u8> {
    if primitive_code(t) is Some {
        Seq::empty()
    } else if t == name_string() {
        java_string_descriptor()
    } else if meta.contains_key(t) {
        seq![76u8] + dots_to_slashes(meta[t].java_name) + seq![59u8]
    } else {
        seq![76u8, 59u8]
    }
}

/// The descriptor of one declared field in the head.
pub open spec fn head_field_bytes(meta: Map<Seq<u8>, ClassMetaView>, f: FieldDesc) -> Seq<u8> {
    let t = utf8(f.declared_type);
    let name = utf8(f.name);
    let j = jvm_type_name(meta, t);
    seq![type_code(t)] + len_prefix(name.len()) + name + if j.len() > 0 {
        string_record(j)
    } else {
        Seq::empty()
    }
}

/// Whether a declared field is of a class registered as `java.lang.Object`.
pub open spec fn marks_object(meta: Map<Seq<u8>, ClassMetaView>, f: FieldDesc) -> bool {
    let t = utf8(f.declared_type);
    primitive_code(t) is None && t != name_string() && meta.contains_key(t) && meta[t].java_name
        == java_lang_object()
}

/// Writing the descriptor of one declared field.
pub open spec fn head_field(s: JvmState, f: FieldDesc) -> JvmState {
    let s1 = append_out(s, head_field_bytes(s.metadata, f));
    if marks_object(s.metadata, f) {
        JvmState { inner_is_object: true, ..s1 }
    } else {
        s1
    }
}

/// Writing the descriptors of declared fields, in order.
pub open spec fn head_fields(s: JvmState, fs: Seq<FieldDesc>) -> JvmState
    decreases fs.len(),
{
    if fs.len() == 0 {
        s
    } else {
        head_field(head_fields(s, fs.drop_last()), fs.last())
    }
}

/// Writing the head: the class description of the top object. It is closed
/// by `TC_ENDBLOCKDATA`, `TC_NULL` unless a field is of class `java.lang.Object`.
pub open spec fn write_head_state(s: JvmState, d: ClassDesc) -> JvmState {
    let s1 = head_fields(append_out(s, head_prefix(d)), d.fields@);
    if !s1.inner_is_object {
        append_out(s1, seq![120u8, 112u8])
    } else {
        s1
    }
}

/// Where the last `::` of `s` starts.
pub fn last_path_sep(s: &[u8]) -> (r: usize)
    requires
        has_path_sep(s@),
    ensures
        r == last_sep(s@),
        is_sep_at(s@, r as int),
{
    let n = s.len();
    let mut i: usize = n - 1;
    while i > 0
        invariant
            n == s@.len(),
            i < n,
            has_path_sep(s@),
            forall|j: int| i <= j && #[trigger] is_sep_at(s@, j) ==> false,
        decreases i,
    {
        if s[i - 1] == 58 && s[i] == 58 {
            let r = i - 1;
            proof {
                assert(is_sep_at(s@, r as int));
                let c = last_sep(s@);
                assert(is_sep_at(s@, c) && forall|j: int| is_sep_at(s@, j) ==> j <= c);
                assert(c <= r as int) by {
                    if c > r as int {
                        assert(i <= c);
                    }
                }
            }
            return r;
        }
        i = i - 1;
    }
    proof {
        let w = choose|j: int| is_sep_at(s@, j);
        assert(is_sep_at(s@, w));
        assert(false);
    }
    0
}

/// A copy of `s[from..to]`.
pub fn copy_range(s: &[u8], from: usize, to: usize) -> (r: Vec<u8>)
    requires
        from <= to <= s@.len(),
    ensures
        r@ == s@.subrange(from as int, to as int),
{
    let mut out: Vec<u8> = Vec::new();
    let mut i = from;
    while i < to
        invariant
            from <= i <= to <= s@.len(),
            out@ == s@.subrange(from as int, i as int),
        decreases to - i,
    {
        out.push(s[i]);
        i = i + 1;
        assert(out@ =~= s@.subrange(from as int, i as int));
    }
    out
}

/// Appends `b` with each `.` turned into `/`.
pub fn push_dots_to_slashes(out: &mut Vec<u8>, b: &[u8])
    ensures
        final(out)@ == old(out)@ + dots_to_slashes(b@),
{
    let mut i: usize = 0;
    while i < b.len()
        invariant
            0 <= i <= b@.len(),
            out@ == old(out)@ + dots_to_slashes(b@.subrange(0, i as int)),
        decreases b@.len() - i,
    {
        let c = b[i];
        if c == 46 {
            out.push(47);
        } else {
            out.push(c);
        }
        i = i + 1;
        assert(out@ =~= old(out)@ + dots_to_slashes(b@.subrange(0, i as int)));
    }
    assert(b@.subrange(0, i as int) =~= b@);
}

impl JvmSerializer {
    /// Registers the described class, under its full Rust path and under the
    /// name that follows the last `::`, then its items, in order.
    pub fn build_metadata(&mut self, ob: Option<&ClassDesc>)
        requires
            ob matches Some(d) ==> well_named(*d),
        ensures
            final(self)@ == (match ob {
                Some(d) => JvmState { metadata: build_meta(old(self)@.metadata, *d), ..old(self)@ },
                None => old(self)@,
            }),
    {
        match ob {
            Some(object) => self.register(object),
            None => {},
        }
    }

    fn register(&mut self, object: &ClassDesc)
        requires
            well_named(*object),
        ensures
            final(self)@ == (JvmState {
                metadata: build_meta(old(self)@.metadata, *object),
                ..old(self)@
            }),
        decreases *object,
    {
        self.register_names(object);
        let ghost m0 = self@.metadata;
        let mut i: usize = 0;
        while i < object.items.len()
            invariant
                0 <= i <= object.items@.len(),
                items_well_named(object.items@),
                self@ == (JvmState {
                    metadata: build_meta_items(m0, object.items@.take(i as int)),
                    ..old(self)@
                }),
            decreases object.items@.len() - i,
        {
            proof {
                assert(decreases_to!(*object => object.items));
                assert(decreases_to!(object.items => object.items@));
                assert(decreases_to!(object.items@ => object.items@[i as int]));
                lemma_items_well_named_index(object.items@, i as int);
            }
            self.register(&object.items[i]);
            proof {
                assert(object.items@.take(i + 1).drop_last() =~= object.items@.take(i as int));
            }
            i = i + 1;
        }
        proof {
            assert(object.items@.take(i as int) =~= object.items@);
        }
    }

    fn register_names(&mut self, object: &ClassDesc)
        requires
            has_path_sep(utf8(object.rust_type_name)),
        ensures
            final(self)@ == (JvmState {
                metadata: old(self)@.metadata.insert(
                    utf8(object.rust_type_name),
                    meta_of(*object),
                ).insert(short_name(utf8(object.rust_type_name)), meta_of(*object)),
                ..old(self)@
            }),
    {
        let name = string_bytes(&object.rust_type_name);
        let n = name.len();
        let idx = last_path_sep(name);
        assert(idx + 1 < n);
        let uid = object.serial_version_uid;
        let count = (object.fields.len() % 0x10000) as u16;
        let full = string_bytes_vec(&object.rust_type_name);
        let short = copy_range(name, idx + 2, n);
        let meta1 = ClassMeta {
            java_name: string_bytes_vec(&object.java_class_name),
            uid,
            field_count: count,
        };
        let meta2 = ClassMeta {
            java_name: string_bytes_vec(&object.java_class_name),
            uid,
            field_count: count,
        };
        assert(meta1@ == meta_of(*object));
        assert(meta2@ == meta_of(*object));
        assert(short@ == short_name(utf8(object.rust_type_name)));
        self.meta_insert(full, meta1);
        self.meta_insert(short, meta2);
    }

    /// Writes the head: the class description of the top object, with one
    /// descriptor per declared field.
    pub fn write_head(&mut self, ob: &ClassDesc)
        ensures
            final(self)@ == write_head_state(old(self)@, *ob),
    {
        let name = string_bytes(&ob.java_class_name);
        let mut pre: Vec<u8> = vec![0u8, 172, 237, 0, 5, 115, 114];
        push_len_prefix(&mut pre, name.len());
        push_all(&mut pre, name);
        push_be64(&mut pre, ob.serial_version_uid);
        pre.push(2);
        push_len_prefix(&mut pre, ob.fields.len());
        assert(pre@ =~= head_prefix(*ob));
        self.push_out(pre.as_slice());
        let ghost start = self@;
        let mut i: usize = 0;
        while i < ob.fields.len()
            invariant
                0 <= i <= ob.fields@.len(),
                self@ == head_fields(start, ob.fields@.take(i as int)),
            decreases ob.fields@.len() - i,
        {
            let f = &ob.fields[i];
            self.write_head_field(f);
            assert(ob.fields@.take(i + 1).drop_last() =~= ob.fields@.take(i as int));
            i = i + 1;
        }
        assert(ob.fields@.take(i as int) =~= ob.fields@);
        if !self.object_flag() {
            let tail = vec![120u8, 112];
            self.push_out(tail.as_slice());
        }
        assert(self@ == write_head_state(old(self)@, *ob));
    }

    fn write_head_field(&mut self, f: &FieldDesc)
        ensures
            final(self)@ == head_field(old(self)@, *f),
    {
        let t = string_bytes(&f.declared_type);
        let name = string_bytes(&f.name);
        let code = match primitive_code_of(t) {
            Some(c) => c,
            None => 76u8,
        };
        let (tname, marks) = self.jvm_type_name_of(t);
        let mut rec: Vec<u8> = Vec::new();
        rec.push(code);
        push_len_prefix(&mut rec, name.len());
        push_all(&mut rec, name);
        if tname.len() > 0 {
            rec.push(116);
            push_len_prefix(&mut rec, tname.len());
            push_all(&mut rec, tname.as_slice());
        }
        assert(rec@ =~= head_field_bytes(self@.metadata, *f));
        self.push_out(rec.as_slice());
        if marks {
            self.set_object_flag();
        }
    }

    /// The JVM type name of a declared type, and whether the type is
    /// registered as `java.lang.Object`.
    fn jvm_type_name_of(&self, t: &[u8]) -> (r: (Vec<u8>, bool))
        ensures
            r.0@ == jvm_type_name(self@.metadata, t@),
            r.1 == (primitive_code(t@) is None && t@ != name_string() && self@.metadata.contains_key(t@)
                && self@.metadata[t@].java_name == java_lang_object()),
    {
        if primitive_code_of(t).is_some() {
            return (Vec::new(), false);
        }
        if is_string_type(t) {
            let d = vec![76u8, 106, 97, 118, 97, 47, 108, 97, 110, 103, 47, 83, 116, 114, 105, 110, 103, 59];
            assert(d@ =~= java_string_descriptor());
            return (d, false);
        }
        let mut tname: Vec<u8> = Vec::new();
        tname.push(76);
        let mut marks = false;
        match self.meta_get(t) {
            Some(data) => {
                marks = is_java_lang_object(data.java_name.as_slice());
                push_dots_to_slashes(&mut tname, data.java_name.as_slice());
            },
            None => {},
        }
        tname.push(59);
        assert(tname@ =~= jvm_type_name(self@.metadata, t@));
        (tname, marks)
    }
}

/// Registering a class over a table `m` lays the class's own table over
/// `m`: under each name the class registers, its entry replaces `m`'s.
pub proof fn lemma_build_meta_overlay(m: Map<Seq<u8>, ClassMetaView>, d: ClassDesc)
    ensures
        build_meta(m, d) == m.union_prefer_right(build_meta(Map::empty(), d)),
    decreases d, 1int,
{
    let name = utf8(d.rust_type_name);
    let e = Map::<Seq<u8>, ClassMetaView>::empty();
    let m1 = m.insert(name, meta_of(d)).insert(short_name(name), meta_of(d));
    let e1 = e.insert(name, meta_of(d)).insert(short_name(name), meta_of(d));
    assert(decreases_to!(d => d.items));
    assert(decreases_to!(d.items => d.items@));
    lemma_build_meta_items_overlay(m1, d.items@);
    lemma_build_meta_items_overlay(e1, d.items@);
    let x = build_meta_items(e, d.items@);
    assert(m1.union_prefer_right(x) =~= m.union_prefer_right(e1.union_prefer_right(x)));
}

/// Registering a list of classes over `m` lays their own table over `m`.
proof fn lemma_build_meta_items_overlay(m: Map<Seq<u8>, ClassMetaView>, ds: Seq<ClassDesc>)
    ensures
        build_meta_items(m, ds) == m.union_prefer_right(build_meta_items(Map::empty(), ds)),
    decreases ds, 0int,
{
    if ds.len() > 0 {
        let e = Map::<Seq<u8>, ClassMetaView>::empty();
        let init = ds.drop_last();
        let d = ds.last();
        assert(decreases_to!(ds => ds[ds.len() - 1]));
        lemma_build_meta_items_overlay(m, init);
        lemma_build_meta_items_overlay(e, init);
        lemma_build_meta_overlay(build_meta_items(m, init), d);
        lemma_build_meta_overlay(build_meta_items(e, init), d);
        let a = build_meta_items(e, init);
        let b = build_meta(e, d);
        assert(m.union_prefer_right(a).union_prefer_right(b) =~= m.union_prefer_right(
            a.union_prefer_right(b),
        ));
    }
}

/// Registering a class twice leaves the table as registering it once.
pub proof fn lemma_build_meta_twice(m: Map<Seq<u8>, ClassMetaView>, d: ClassDesc)
    ensures
        build_meta(build_meta(m, d), d) == build_meta(m, d),
{
    lemma_build_meta_overlay(m, d);
    lemma_build_meta_overlay(build_meta(m, d), d);
    let b = build_meta(Map::empty(), d);
    assert(m.union_prefer_right(b).union_prefer_right(b) =~= m.union_prefer_right(b));
}

/// Writing field descriptors only appends to the output.
pub proof fn lemma_head_fields_only_append(s: JvmState, fs: Seq<FieldDesc>)
    ensures
        s.buf.is_prefix_of(head_fields(s, fs).buf),
    decreases fs.len(),
{
    if fs.len() == 0 {
        assert(s.buf.subrange(0, s.buf.len() as int) =~= s.buf);
    } else {
        lemma_head_fields_only_append(s, fs.drop_last());
        let s1 = head_fields(s, fs.drop_last());
        let s2 = head_fields(s, fs);
        assert(s2.buf.subrange(0, s1.buf.len() as int) =~= s1.buf);
        assert(s2.buf.subrange(0, s.buf.len() as int) =~= s1.buf.subrange(0, s.buf.len() as int));
    }
}

/// Whether the class `c` is registered under the name `k`: its full Rust path
/// or what follows the path's last `::`.
pub open spec fn names_class(c: ClassDesc, k: Seq<u8>) -> bool {
    k == utf8(c.rust_type_name) || k == short_name(utf8(c.rust_type_name))
}

/// A class and all the classes nested in it, in the order their descriptions
/// are walked: the class, then the classes of each item in turn.
pub open spec fn all_classes(d: ClassDesc) -> Seq<ClassDesc>
    decreases d, 1int,
{
    seq![d] + all_items(d.items@)
}

/// The classes of `ds` and all the classes nested in them, in order.
pub open spec fn all_items(ds: Seq<ClassDesc>) -> Seq<ClassDesc>
    decreases ds, 0int,
{
    if ds.len() == 0 {
        Seq::empty()
    } else {
        all_items(ds.drop_last()) + all_classes(ds.last())
    }
}

/// One class entered under its two names.
spec fn enter(m: Map<Seq<u8>, ClassMetaView>, c: ClassDesc) -> Map<Seq<u8>, ClassMetaView> {
    let name = utf8(c.rust_type_name);
    m.insert(name, meta_of(c)).insert(short_name(name), meta_of(c))
}

/// Classes entered one after the other, none of them looked into.
spec fn enter_all(m: Map<Seq<u8>, ClassMetaView>, cs: Seq<ClassDesc>) -> Map<
    Seq<u8>,
    ClassMetaView,
>
    decreases cs.len(),
{
    if cs.len() == 0 {
        m
    } else {
        enter(enter_all(m, cs.drop_last()), cs.last())
    }
}

proof fn lemma_enter_all_concat(
    m: Map<Seq<u8>, ClassMetaView>,
    a: Seq<ClassDesc>,
    b: Seq<ClassDesc>,
)
    ensures
        enter_all(m, a + b) == enter_all(enter_all(m, a), b),
    decreases b.len(),
{
    if b.len() == 0 {
        assert(a + b =~= a);
    } else {
        assert((a + b).drop_last() =~= a + b.drop_last());
        assert((a + b).last() == b.last());
        lemma_enter_all_concat(m, a, b.drop_last());
    }
}

proof fn lemma_build_meta_flat(m: Map<Seq<u8>, ClassMetaView>, d: ClassDesc)
    ensures
        build_meta(m, d) == enter_all(m, all_classes(d)),
    decreases d, 1int,
{
    assert(decreases_to!(d => d.items));
    assert(decreases_to!(d.items => d.items@));
    lemma_build_meta_items_flat(enter(m, d), d.items@);
    lemma_enter_all_concat(m, seq![d], all_items(d.items@));
    let one = seq![d];
    assert(one.drop_last() =~= Seq::<ClassDesc>::empty());
    assert(enter_all(m, one.drop_last()) == m);
    assert(one.last() == d);
    assert(enter_all(m, one) == enter(m, d));
}

proof fn lemma_build_meta_items_flat(m: Map<Seq<u8>, ClassMetaView>, ds: Seq<ClassDesc>)
    ensures
        build_meta_items(m, ds) == enter_all(m, all_items(ds)),
    decreases ds, 0int,
{
    if ds.len() > 0 {
        assert(decreases_to!(ds => ds[ds.len() - 1]));
        lemma_build_meta_items_flat(m, ds.drop_last());
        lemma_build_meta_flat(build_meta_items(m, ds.drop_last()), ds.last());
        lemma_enter_all_concat(m, all_items(ds.drop_last()), all_classes(ds.last()));
    }
}

proof fn lemma_enter_all_table(m: Map<Seq<u8>, ClassMetaView>, cs: Seq<ClassDesc>)
    ensures
        forall|k: Seq<u8>|
            #[trigger] enter_all(m, cs).contains_key(k) <==> (m.contains_key(k) || exists|i: int|
                0 <= i < cs.len() && #[trigger] names_class(cs[i], k)),
        forall|i: int, k: Seq<u8>|
            0 <= i < cs.len() && #[trigger] names_class(cs[i], k) && (forall|j: int|
                i < j < cs.len() ==> !#[trigger] names_class(cs[j], k)) ==> enter_all(m, cs)[k]
                == meta_of(cs[i]),
        forall|k: Seq<u8>|
            m.contains_key(k) && (forall|i: int| 0 <= i < cs.len() ==> !#[trigger] names_class(cs[i], k))
                ==> #[trigger] enter_all(m, cs)[k] == m[k],
    decreases cs.len(),
{
    if cs.len() > 0 {
        let init = cs.drop_last();
        let c = cs.last();
        let n = cs.len() - 1;
        lemma_enter_all_table(m, init);
        let r0 = enter_all(m, init);
        let r = enter_all(m, cs);
        assert(r == enter(r0, c));
        assert forall|k: Seq<u8>| #[trigger] r.contains_key(k) <==> (m.contains_key(k) || exists|i: int|
            0 <= i < cs.len() && #[trigger] names_class(cs[i], k)) by {
            if r.contains_key(k) && !m.contains_key(k) {
                if names_class(c, k) {
                    assert(names_class(cs[n], k));
                } else {
                    assert(r0.contains_key(k));
                    let i = choose|i: int| 0 <= i < init.len() && #[trigger] names_class(init[i], k);
                    assert(names_class(cs[i], k));
                }
            }
            if exists|i: int| 0 <= i < cs.len() && #[trigger] names_class(cs[i], k) {
                let i = choose|i: int| 0 <= i < cs.len() && #[trigger] names_class(cs[i], k);
                if i < n {
                    assert(names_class(init[i], k));
                }
            }
        }
        assert forall|i: int, k: Seq<u8>|
            0 <= i < cs.len() && #[trigger] names_class(cs[i], k) && (forall|j: int|
                i < j < cs.len() ==> !#[trigger] names_class(cs[j], k)) implies r[k] == meta_of(
            cs[i],
        ) by {
            if i < n {
                assert(!names_class(cs[n], k));
                assert(names_class(init[i], k));
                assert forall|j: int| i < j < init.len() implies !#[trigger] names_class(init[j], k) by {
                    assert(!names_class(cs[j], k));
                }
            }
        }
        assert forall|k: Seq<u8>|
            m.contains_key(k) && (forall|i: int| 0 <= i < cs.len() ==> !#[trigger] names_class(cs[i], k))
            implies #[trigger] r[k] == m[k] by {
            assert(!names_class(cs[n], k));
            assert forall|i: int| 0 <= i < init.len() implies !#[trigger] names_class(init[i], k) by {
                assert(!names_class(cs[i], k));
            }
        }
    }
}

proof fn lemma_all_items_contains(ds: Seq<ClassDesc>, i: int)
    requires
        0 <= i < ds.len(),
    ensures
        all_items(ds).contains(ds[i]),
    decreases ds.len(),
{
    let init = ds.drop_last();
    let tail = all_classes(ds.last());
    assert(all_items(ds) == all_items(init) + tail);
    if i == ds.len() - 1 {
        assert(tail[0] == ds[i]);
        assert(all_items(ds)[all_items(init).len() as int] == ds[i]);
    } else {
        lemma_all_items_contains(init, i);
        let k = choose|k: int| 0 <= k < all_items(init).len() && all_items(init)[k] == init[i];
        assert(all_items(ds)[k] == ds[i]);
    }
}

/// Registering a class registers it and every class nested in it, at any
/// depth: after it, the table holds exactly the names it held before and
/// the two names (full Rust path, and what follows its last `::`) of each of
/// `all_classes(d)`, which lists `d` and holds each of its items. Under each
/// name stands the entry of the last of these classes to carry it; a name
/// none of them carries keeps its entry.
pub proof fn lemma_build_meta_registers_every_class(m: Map<Seq<u8>, ClassMetaView>, d: ClassDesc)
    ensures
        all_classes(d)[0] == d,
        forall|i: int| 0 <= i < d.items@.len() ==> all_classes(d).contains(#[trigger] d.items@[i]),
        forall|k: Seq<u8>|
            #[trigger] build_meta(m, d).contains_key(k) <==> (m.contains_key(k) || exists|i: int|
                0 <= i < all_classes(d).len() && #[trigger] names_class(all_classes(d)[i], k)),
        forall|i: int, k: Seq<u8>|
            0 <= i < all_classes(d).len() && #[trigger] names_class(all_classes(d)[i], k) && (forall|j: int|
                i < j < all_classes(d).len() ==> !#[trigger] names_class(all_classes(d)[j], k))
                ==> build_meta(m, d)[k] == meta_of(all_classes(d)[i]),
        forall|k: Seq<u8>|
            m.contains_key(k) && (forall|i: int|
                0 <= i < all_classes(d).len() ==> !#[trigger] names_class(all_classes(d)[i], k))
                ==> #[trigger] build_meta(m, d)[k] == m[k],
{
    let cs = all_classes(d);
    lemma_build_meta_flat(m, d);
    lemma_enter_all_table(m, cs);
    assert forall|i: int| 0 <= i < d.items@.len() implies cs.contains(#[trigger] d.items@[i]) by {
        lemma_all_items_contains(d.items@, i);
        let k = choose|k: int| 0 <= k < all_items(d.items@).len() && all_items(d.items@)[k] == d.items@[i];
        assert(cs[k + 1] == d.items@[i]);
    }
}

/// Turning dots into slashes keeps the length, puts `/` for each `.`, and
/// keeps every other byte as it is.
pub proof fn lemma_dots_to_slashes(b: Seq<u8>)
    ensures
        dots_to_slashes(b).len() == b.len(),
        forall|i: int| 0 <= i < b.len() && b[i] == 46u8 ==> #[trigger] dots_to_slashes(b)[i] == 47u8,
        forall|i: int| 0 <= i < b.len() && b[i] != 46u8 ==> #[trigger] dots_to_slashes(b)[i] == b[i],
{
}

/// The JVM type name written after a field whose declared type names a
/// registered class: `L`, the class's Java name with each `.` (and nothing
/// else) turned into `/`, then `;`.
pub proof fn lemma_registered_jvm_type_name(meta: Map<Seq<u8>, ClassMetaView>, t: Seq<u8>)
    requires
        primitive_code(t) is None,
        t != name_string(),
        meta.contains_key(t),
    ensures
        ({
            let jn = meta[t].java_name;
            let r = jvm_type_name(meta, t);
            &&& r.len() == jn.len() + 2
            &&& r[0] == 76u8
            &&& r[jn.len() as int + 1] == 59u8
            &&& forall|i: int| 0 <= i < jn.len() ==> #[trigger] r[i + 1] == if jn[i] == 46u8 {
                47u8
            } else {
                jn[i]
            }
        }),
{
    let jn = meta[t].java_name;
    let r = jvm_type_name(meta, t);
    assert forall|i: int| 0 <= i < jn.len() implies #[trigger] r[i + 1] == if jn[i] == 46u8 {
        47u8
    } else {
        jn[i]
    } by {
        assert(r[i + 1] == dots_to_slashes(jn)[i]);
    }
}

proof fn lemma_max_sep_from(s: Seq<u8>, i: int)
    requires
        is_sep_at(s, i),
    ensures
        exists|c: int| is_sep_at(s, c) && forall|j: int| c < j ==> !#[trigger] is_sep_at(s, j),
    decreases s.len() - i,
{
    if exists|j: int| i < j && #[trigger] is_sep_at(s, j) {
        let j = choose|j: int| i < j && #[trigger] is_sep_at(s, j);
        lemma_max_sep_from(s, j);
    } else {
        assert(forall|j: int| i < j ==> !#[trigger] is_sep_at(s, j));
    }
}

/// What follows a path's last `::`: where the path holds `::`, it is what
/// stands after a `::` behind which no other `::` starts.
pub proof fn lemma_short_name(s: Seq<u8>)
    requires
        has_path_sep(s),
    ensures
        exists|i: int|
            is_sep_at(s, i) && (forall|j: int| i < j ==> !#[trigger] is_sep_at(s, j))
                && short_name(s) == s.subrange(i + 2, s.len() as int),
{
    let w = choose|i: int| is_sep_at(s, i);
    lemma_max_sep_from(s, w);
    let best = choose|c: int| is_sep_at(s, c) && forall|j: int| c < j ==> !#[trigger] is_sep_at(s, j);
    assert(forall|j: int| is_sep_at(s, j) ==> j <= best);
    let c = last_sep(s);
    assert(is_sep_at(s, c) && forall|j: int| is_sep_at(s, j) ==> j <= c);
    assert(c == best);
}

/// A class's table entry holds its Java name's UTF-8 bytes, its serial
/// version UID, and its number of declared fields modulo 2^16.
pub proof fn lemma_meta_of(d: ClassDesc)
    ensures
        meta_of(d).java_name == utf8(d.java_class_name),
        meta_of(d).uid == d.serial_version_uid,
        meta_of(d).field_count == d.fields@.len() % 0x10000,
{
}

/// The head up to the field descriptors: the bytes 0, 172, 237, 0, 5
/// (a leading zero, the magic `0xACED`, the version 5), `TC_OBJECT` 115 and
/// `TC_CLASSDESC` 114; the Java name's length modulo 2^16 in two bytes and
/// its UTF-8 bytes; the eight bytes of the serial version UID; the flags
/// byte 2; the number of declared fields modulo 2^16 in two bytes.
pub proof fn lemma_head_prefix_bytes(d: ClassDesc)
    ensures
        ({
            let h = head_prefix(d);
            let jn = utf8(d.java_class_name);
            let jl = jn.len() as int;
            &&& h.len() == 20 + jl
            &&& h.subrange(0, 7) == seq![0u8, 172, 237, 0, 5, 115, 114]
            &&& be_value(h.subrange(7, 9)) == jn.len() % 0x10000
            &&& h.subrange(9, 9 + jl) == jn
            &&& be_value(h.subrange(9 + jl, 17 + jl)) == d.serial_version_uid
            &&& h[17 + jl] == 2u8
            &&& be_value(h.subrange(18 + jl, 20 + jl)) == d.fields@.len() % 0x10000
        }),
{
    let h = head_prefix(d);
    let jn = utf8(d.java_class_name);
    let jl = jn.len() as int;
    let n = (jn.len() % 0x10000) as u16;
    let c = (d.fields@.len() % 0x10000) as u16;
    lemma_be16_value(n);
    lemma_be16_value(c);
    lemma_be64_value(d.serial_version_uid);
    assert(h.subrange(0, 7) =~= seq![0u8, 172, 237, 0, 5, 115, 114]);
    assert(h.subrange(7, 9) =~= be16(n));
    assert(h.subrange(9, 9 + jl) =~= jn);
    assert(h.subrange(9 + jl, 17 + jl) =~= be64(d.serial_version_uid));
    assert(h.subrange(18 + jl, 20 + jl) =~= be16(c));
}

/// The descriptor of a declared field in the head: its type code, its name's
/// length modulo 2^16 in two bytes and its UTF-8 bytes, then, for a type
/// with a JVM type name (all but the primitives), the tag 116, that name's
/// length in two bytes and its bytes.
pub proof fn lemma_head_field_bytes(meta: Map<Seq<u8>, ClassMetaView>, f: FieldDesc)
    ensures
        ({
            let b = head_field_bytes(meta, f);
            let t = utf8(f.declared_type);
            let name = utf8(f.name);
            let nl = name.len() as int;
            let j = jvm_type_name(meta, t);
            &&& b[0] == type_code(t)
            &&& be_value(b.subrange(1, 3)) == name.len() % 0x10000
            &&& b.subrange(3, 3 + nl) == name
            &&& j.len() == 0 ==> b.len() == 3 + nl
            &&& j.len() > 0 ==> {
                &&& b.len() == 6 + nl + j.len()
                &&& b[3 + nl] == 116u8
                &&& be_value(b.subrange(4 + nl, 6 + nl)) == j.len() % 0x10000
                &&& b.subrange(6 + nl, b.len() as int) == j
            }
        }),
{
    let b = head_field_bytes(meta, f);
    let t = utf8(f.declared_type);
    let name = utf8(f.name);
    let nl = name.len() as int;
    let j = jvm_type_name(meta, t);
    let n = (name.len() % 0x10000) as u16;
    lemma_be16_value(n);
    assert(b.subrange(1, 3) =~= be16(n));
    assert(b.subrange(3, 3 + nl) =~= name);
    if j.len() > 0 {
        let m = (j.len() % 0x10000) as u16;
        lemma_be16_value(m);
        assert(b.subrange(4 + nl, 6 + nl) =~= be16(m));
        assert(b.subrange(6 + nl, b.len() as int) =~= j);
    }
}

/// The type code of a declared field: `I` for `i32`, `B` for `u8`, `C` for
/// `char`, `D` for `f64`, `F` for `f32`, `J` for `i64`, `S` for `i16`, `Z`
/// for `bool`, and `L` for every other type.
pub proof fn lemma_type_code(t: Seq<u8>)
    ensures
        type_code(t) == if t == seq![105u8, 51, 50] {
            73u8
        } else if t == seq![117u8, 56] {
            66u8
        } else if t == seq![99u8, 104, 97, 114] {
            67u8
        } else if t == seq![102u8, 54, 52] {
            68u8
        } else if t == seq![102u8, 51, 50] {
            70u8
        } else if t == seq![105u8, 54, 52] {
            74u8
        } else if t == seq![105u8, 49, 54] {
            83u8
        } else if t == seq![98u8, 111, 111, 108] {
            90u8
        } else {
            76u8
        },
{
}

/// An item of a well-named list is well-named.
pub proof fn lemma_items_well_named_index(ds: Seq<ClassDesc>, i: int)
    requires
        items_well_named(ds),
        0 <= i < ds.len(),
    ensures
        well_named(ds[i]),
    decreases ds.len(),
{
    if i == ds.len() - 1 {
    } else {
        lemma_items_well_named_index(ds.drop_last(), i);
    }
}

} // verus!

//! The reading half of the serializer.
use vstd::prelude::*;
use vstd::utf8::{decode_utf8, valid_utf8};
use crate::java::io::bytes::{i32_of_bits, prefix_len, u16_of, u32_of};
use crate::java::io::model::{values_data, Data, Shape, ShapeModel, Value};
use crate::java::io::serializer::{JvmSerializer, JvmState};

verus! {

/// A name for the characters that `String::from_utf8_lossy` makes of bytes
/// that are not valid UTF-8.
pub uninterp spec fn lossy_utf8(bytes: Seq<u8>) -> Seq<char>;

/// The characters that a reader makes of string bytes: their UTF-8 decoding
/// where they are valid UTF-8.
pub open spec fn text_of(bytes: Seq<u8>) -> Seq<char> {
    if valid_utf8(bytes) {
        decode_utf8(bytes)
    } else {
        lossy_utf8(bytes)
    }
}

/// `String::from_utf8_lossy`, made an owned string. The standard library
/// documents that valid UTF-8 comes back as the string it encodes; for other
/// bytes the result is named by `lossy_utf8` and nothing more is stated.
#[verifier::external_body]
fn string_from_utf8_lossy(bytes: &[u8]) -> (s: String)
    ensures
        valid_utf8(bytes@) ==> s@ == decode_utf8(bytes@),
        !valid_utf8(bytes@) ==> s@ == lossy_utf8(bytes@),
{
    String::from_utf8_lossy(bytes).into_owned()
}

/// Where reading can safely go on: positions stay far from `usize::MAX`.
pub open spec fn reader_ready(s: JvmState) -> bool {
    s.buf.len() + 64 <= usize::MAX && s.read_idx <= s.buf.len() + 16
}

/// Skips a length-prefixed run of bytes at `i`: the length must be there, not
/// negative as a 16-bit number, and the bytes it counts must be there.
pub open spec fn skip_counted(buf: Seq<u8>, i: int) -> Option<int> {
    if 0 <= i && i + 2 <= buf.len() && buf[i] < 128 && i + 2 + prefix_len(buf[i], buf[i + 1])
        <= buf.len() {
        Some(i + 2 + prefix_len(buf[i], buf[i + 1]))
    } else {
        None
    }
}

/// Skips one field descriptor of the head: its type code, its name, and for
/// an object type (`L`) the JVM type name that follows.
pub open spec fn skip_head_field(buf: Seq<u8>, i: int) -> Option<int> {
    if 0 <= i < buf.len() {
        match skip_counted(buf, i + 1) {
            Some(j) => if buf[i] == 76u8 {
                if j < buf.len() {
                    skip_counted(buf, j + 1)
                } else {
                    None
                }
            } else {
                Some(j)
            },
            None => None,
        }
    } else {
        None
    }
}

/// Skips `n` field descriptors of the head.
pub open spec fn skip_head_fields(buf: Seq<u8>, i: int, n: nat) -> Option<int>
    decreases n,
{
    if n == 0 {
        Some(i)
    } else {
        match skip_head_field(buf, i) {
            Some(j) => skip_head_fields(buf, j, (n - 1) as nat),
            None => None,
        }
    }
}

/// The number of field descriptors announced in the head (none when negative).
pub open spec fn head_count(b0: u8, b1: u8) -> nat {
    if b0 >= 128 {
        0
    } else {
        prefix_len(b0, b1)
    }
}

/// Where reading goes on after the head: past the first seven bytes, the
/// class name, the serial version UID and flags, the field descriptors, and
/// the two closing bytes.
pub open spec fn rd_head(buf: Seq<u8>) -> Option<int> {
    match skip_counted(buf, 7) {
        Some(i) => {
            let j = i + 9;
            if j + 2 <= buf.len() {
                match skip_head_fields(buf, j + 2, head_count(buf[j], buf[j + 1])) {
                    Some(k) => Some(k + 2),
                    None => None,
                }
            } else {
                None
            }
        },
        None => None,
    }
}

/// Reads a big-endian `i32` at `i`.
pub open spec fn rd_i32(buf: Seq<u8>, i: int) -> Option<(i32, int)> {
    if 0 <= i && i + 4 <= buf.len() {
        Some((i32_of_bits(u32_of(buf[i], buf[i + 1], buf[i + 2], buf[i + 3])), i + 4))
    } else {
        None
    }
}

/// Reads a string at `i`: a tag byte (not looked at), a length, the bytes.
pub open spec fn rd_string(buf: Seq<u8>, i: int) -> Option<(Seq<char>, int)> {
    match skip_counted(buf, i + 1) {
        Some(e) => Some((text_of(buf.subrange(i + 3, e)), e)),
        None => None,
    }
}

/// Skips `k` field descriptors of a nested object: a code byte and a name each.
pub open spec fn skip_descs(buf: Seq<u8>, i: int, k: nat) -> Option<int>
    decreases k,
{
    if k == 0 {
        Some(i)
    } else if 0 <= i < buf.len() {
        match skip_counted(buf, i + 1) {
            Some(j) => skip_descs(buf, j, (k - 1) as nat),
            None => None,
        }
    } else {
        None
    }
}

/// What a struct of `k` fields is preceded by. Where the byte at `i` is 115
/// (`TC_OBJECT`), a nested object's header: skipped with its `k` descriptors
/// and the seven closing bytes; the result tells that a header was seen.
pub open spec fn rd_struct_prefix(buf: Seq<u8>, i: int, k: nat) -> Option<(int, bool)> {
    if 0 <= i < buf.len() {
        if buf[i] == 115u8 {
            match skip_counted(buf, i + 2) {
                Some(j) => if j + 8 <= buf.len() {
                    match skip_descs(buf, j + 11, k) {
                        Some(e) => Some((e + 7, true)),
                        None => None,
                    }
                } else {
                    None
                },
                None => None,
            }
        } else {
            Some((i, false))
        }
    } else {
        None
    }
}

/// Reads a value of the given shape at `i`, with `inner` the flag before; gives
/// the value, where reading goes on, and the flag after.
pub open spec fn rd_value(buf: Seq<u8>, i: int, inner: bool, shape: ShapeModel) -> Option<
    (Data, int, bool),
>
    decreases shape,
{
    match shape {
        ShapeModel::I32 => match rd_i32(buf, i) {
            Some((v, j)) => Some((Data::I32(v), j, inner)),
            None => None,
        },
        ShapeModel::Str => match rd_string(buf, i) {
            Some((t, j)) => Some((Data::Str(t), j, inner)),
            None => None,
        },
        ShapeModel::Object(shapes) => match rd_struct_prefix(buf, i, shapes.len()) {
            Some((j, seen)) => match rd_tuple(buf, j, inner || seen, shapes) {
                Some((ds, e, inn)) => Some((Data::Object(ds), e, inn)),
                None => None,
            },
            None => None,
        },
    }
}

/// Reads values of the given shapes one after the other.
pub open spec fn rd_tuple(buf: Seq<u8>, i: int, inner: bool, shapes: Seq<ShapeModel>) -> Option<
    (Seq<Data>, int, bool),
>
    decreases shapes,
{
    if shapes.len() == 0 {
        Some((Seq::empty(), i, inner))
    } else {
        match rd_tuple(buf, i, inner, shapes.drop_last()) {
            Some((ds, j, inn)) => match rd_value(buf, j, inn, shapes.last()) {
                Some((d, e, inn2)) => Some((ds.push(d), e, inn2)),
                None => None,
            },
            None => None,
        }
    }
}

/// The shapes of a list of shapes.
pub open spec fn shapes_view(shapes: Seq<Shape>) -> Seq<ShapeModel> {
    shapes.map_values(|s: Shape| s@)
}


fn skip_counted_at(buf: &[u8], i: usize) -> (r: Option<usize>)
    requires
        buf@.len() + 64 <= usize::MAX,
        i <= buf@.len() + 32,
    ensures
        match r {
            Some(j) => skip_counted(buf@, i as int) == Some(j as int) && j <= buf@.len(),
            None => skip_counted(buf@, i as int) is None,
        },
{
    let n = buf.len();
    if i <= n && n - i >= 2 && buf[i] < 128 {
        let l = (((buf[i] as u16) << 8u16) | (buf[i + 1] as u16)) as usize;
        assert(l == prefix_len(buf@[i as int], buf@[i + 1]));
        if n - i - 2 >= l {
            Some(i + 2 + l)
        } else {
            None
        }
    } else {
        None
    }
}

fn skip_head_field_at(buf: &[u8], i: usize) -> (r: Option<usize>)
    requires
        buf@.len() + 64 <= usize::MAX,
        i <= buf@.len() + 16,
    ensures
        match r {
            Some(j) => skip_head_field(buf@, i as int) == Some(j as int) && j <= buf@.len(),
            None => skip_head_field(buf@, i as int) is None,
        },
{
    if i < buf.len() {
        match skip_counted_at(buf, i + 1) {
            Some(j) => {
                if buf[i] == 76 {
                    if j < buf.len() {
                        skip_counted_at(buf, j + 1)
                    } else {
                        None
                    }
                } else {
                    Some(j)
                }
            },
            None => None,
        }
    } else {
        None
    }
}

fn parse_head(buf: &[u8]) -> (r: Option<usize>)
    requires
        buf@.len() + 64 <= usize::MAX,
    ensures
        match r {
            Some(j) => rd_head(buf@) == Some(j as int) && j <= buf@.len() + 2,
            None => rd_head(buf@) is None,
        },
{
    let i = match skip_counted_at(buf, 7) {
        Some(i) => i,
        None => return None,
    };
    let j = i + 9;
    if j + 2 > buf.len() {
        return None;
    }
    let count: usize = if buf[j] >= 128 {
        0
    } else {
        (((buf[j] as u16) << 8u16) | (buf[j + 1] as u16)) as usize
    };
    assert(count == head_count(buf@[j as int], buf@[j + 1]));
    let start = j + 2;
    let mut k: usize = 0;
    let mut pos = start;
    while k < count
        invariant
            buf@.len() + 64 <= usize::MAX,
            k <= count,
            pos <= buf@.len(),
            rd_head(buf@) == (match skip_head_fields(buf@, start as int, count as nat) {
                Some(e) => Some(e + 2),
                None => None,
            }),
            skip_head_fields(buf@, start as int, count as nat) == skip_head_fields(
                buf@,
                pos as int,
                (count - k) as nat,
            ),
        decreases count - k,
    {
        match skip_head_field_at(buf, pos) {
            Some(next) => {
                pos = next;
                k = k + 1;
            },
            None => {
                assert(skip_head_fields(buf@, pos as int, (count - k) as nat) is None);
                return None;
            },
        }
    }
    Some(pos + 2)
}

fn parse_i32(buf: &[u8], i: usize) -> (r: Option<(i32, usize)>)
    requires
        buf@.len() + 64 <= usize::MAX,
        i <= buf@.len() + 16,
    ensures
        match rd_i32(buf@, i as int) {
            Some((v, j)) => r == Some((v, j as usize)) && 0 <= j <= buf@.len(),
            None => r is None,
        },
{
    let n = buf.len();
    if i <= n && n - i >= 4 {
        let x = ((buf[i] as u32) << 24u32) | ((buf[i + 1] as u32) << 16u32) | ((buf[i + 2] as u32)
            << 8u32) | (buf[i + 3] as u32);
        Some((x as i32, i + 4))
    } else {
        None
    }
}

fn parse_string(buf: &[u8], i: usize) -> (r: Option<(String, usize)>)
    requires
        buf@.len() + 64 <= usize::MAX,
        i <= buf@.len() + 16,
    ensures
        match rd_string(buf@, i as int) {
            Some((t, j)) => r matches Some((s, k)) && s@ == t && k == j && 0 <= j <= buf@.len(),
            None => r is None,
        },
{
    match skip_counted_at(buf, i + 1) {
        Some(e) => {
            let bytes = &buf[i + 3..e];
            assert(bytes@ =~= buf@.subrange(i + 3, e as int));
            Some((string_from_utf8_lossy(bytes), e))
        },
        None => None,
    }
}

fn parse_struct_prefix(buf: &[u8], i: usize, k: usize) -> (r: Option<(usize, bool)>)
    requires
        buf@.len() + 64 <= usize::MAX,
        i <= buf@.len() + 16,
    ensures
        match rd_struct_prefix(buf@, i as int, k as nat) {
            Some((j, seen)) => r == Some((j as usize, seen)) && 0 <= j <= buf@.len() + 16,
            None => r is None,
        },
{
    if i >= buf.len() {
        return None;
    }
    if buf[i] != 115 {
        return Some((i, false));
    }
    let j = match skip_counted_at(buf, i + 2) {
        Some(j) => j,
        None => return None,
    };
    if j + 8 > buf.len() {
        return None;
    }
    let start = j + 11;
    let mut m: usize = 0;
    let mut pos = start;
    while m < k
        invariant
            buf@.len() + 64 <= usize::MAX,
            m <= k,
            pos <= buf@.len() + 11,
            start <= buf@.len() + 3,
            rd_struct_prefix(buf@, i as int, k as nat) == (match skip_descs(
                buf@,
                start as int,
                k as nat,
            ) {
                Some(e) => Some((e + 7, true)),
                None => None,
            }),
            skip_descs(buf@, start as int, k as nat) == skip_descs(buf@, pos as int, (k - m) as nat),
        decreases k - m,
    {
        if pos >= buf.len() {
            return None;
        }
        match skip_counted_at(buf, pos + 1) {
            Some(next) => {
                pos = next;
                m = m + 1;
            },
            None => {
                assert(skip_descs(buf@, pos as int, (k - m) as nat) is None);
                return None;
            },
        }
    }
    proof {
        lemma_skip_descs_bound(buf@, start as int, k as nat);
    }
    Some((pos + 7, true))
}

/// Skipping descriptors ends inside the input or where it started.
/// A field descriptor of the head is skipped alike in two buffers of one
/// length that agree from `m` on, where it starts at or after `m`.
proof fn lemma_skip_head_field_agree(a: Seq<u8>, b: Seq<u8>, i: int, m: int)
    requires
        a.len() == b.len(),
        0 <= m <= i,
        forall|k: int| m <= k < a.len() ==> #[trigger] a[k] == b[k],
    ensures
        skip_head_field(a, i) == skip_head_field(b, i),
        skip_counted(a, i) == skip_counted(b, i),
{
    if i + 2 < a.len() {
        assert(a[i + 1] == b[i + 1] && a[i + 2] == b[i + 2]);
    }
    if i + 1 < a.len() {
        assert(a[i] == b[i] && a[i + 1] == b[i + 1]);
    }
    if i < a.len() {
        assert(a[i] == b[i]);
    }
    match skip_counted(a, i + 1) {
        Some(j) => {
            if j + 2 < a.len() {
                assert(a[j + 1] == b[j + 1] && a[j + 2] == b[j + 2]);
            }
        },
        None => {},
    }
}

/// Field descriptors of the head are skipped alike in two buffers of one
/// length that agree from `m` on, where they start at or after `m`.
proof fn lemma_skip_head_fields_agree(a: Seq<u8>, b: Seq<u8>, i: int, n: nat, m: int)
    requires
        a.len() == b.len(),
        0 <= m <= i,
        forall|k: int| m <= k < a.len() ==> #[trigger] a[k] == b[k],
    ensures
        skip_head_fields(a, i, n) == skip_head_fields(b, i, n),
    decreases n,
{
    if n > 0 {
        lemma_skip_head_field_agree(a, b, i, m);
        match skip_head_field(a, i) {
            Some(j) => {
                assert(j >= i) by {
                    assert(skip_counted(a, i + 1) is Some);
                }
                lemma_skip_head_fields_agree(a, b, j, (n - 1) as nat, m);
            },
            None => {},
        }
    }
}

/// Reading the head looks only at the class name's length, the field
/// count and the field descriptors: the first seven bytes (the leading byte,
/// the stream magic and version, `TC_OBJECT`, `TC_CLASSDESC`), the class
/// name's bytes, the serial version UID and the flags byte are skipped
/// unread. Two buffers of one length that agree at the class name's length
/// and from the field count on are read past the same head.
pub proof fn lemma_read_head_skips_fixed_bytes(a: Seq<u8>, b: Seq<u8>)
    requires
        a.len() == b.len(),
        a.len() >= 9 ==> a[7] == b[7] && a[8] == b[8],
        forall|k: int|
            a.len() >= 9 && 18 + prefix_len(a[7], a[8]) <= k < a.len() ==> #[trigger] a[k] == b[k],
    ensures
        rd_head(a) == rd_head(b),
{
    if a.len() >= 9 {
        let m = (18 + prefix_len(a[7], a[8])) as int;
        assert(skip_counted(a, 7) == skip_counted(b, 7));
        match skip_counted(a, 7) {
            Some(i) => {
                let j = i + 9;
                assert(j == m);
                if j + 2 <= a.len() {
                    assert(a[j] == b[j] && a[j + 1] == b[j + 1]);
                    lemma_skip_head_fields_agree(a, b, j + 2, head_count(a[j], a[j + 1]), m);
                }
            },
            None => {},
        }
    }
}

proof fn lemma_skip_descs_bound(buf: Seq<u8>, i: int, k: nat)
    ensures
        skip_descs(buf, i, k) matches Some(e) ==> e <= buf.len() || (k == 0 && e == i),
    decreases k,
{
    if k > 0 && 0 <= i < buf.len() {
        match skip_counted(buf, i + 1) {
            Some(j) => {
                lemma_skip_descs_bound(buf, j, (k - 1) as nat);
            },
            None => {},
        }
    }
}

fn parse_value(buf: &[u8], i: usize, inner: bool, shape: &Shape) -> (r: Option<(Value, usize, bool)>)
    requires
        buf@.len() + 64 <= usize::MAX,
        i <= buf@.len() + 16,
    ensures
        match rd_value(buf@, i as int, inner, shape@) {
            Some((d, j, inn)) => r matches Some((v, k, b)) && v@ == d && k == j && b == inn && 0
                <= j <= buf@.len() + 16,
            None => r is None,
        },
    decreases *shape,
{
    match shape {
        Shape::I32 => match parse_i32(buf, i) {
            Some((v, j)) => Some((Value::I32(v), j, inner)),
            None => None,
        },
        Shape::Str => match parse_string(buf, i) {
            Some((s, j)) => Some((Value::Str(s), j, inner)),
            None => None,
        },
        Shape::Object(shapes) => {
            proof {
                lemma_object_shape_view(*shapes);
            }
            match parse_struct_prefix(buf, i, shapes.len()) {
                Some((j, seen)) => {
                    assert(decreases_to!(*shape => *shapes));
                    match parse_tuple(buf, j, inner || seen, shapes) {
                        Some((vals, e, inn)) => {
                            let v = Value::Object(vals);
                            Some((v, e, inn))
                        },
                        None => None,
                    }
                },
                None => None,
            }
        },
    }
}

fn parse_tuple(buf: &[u8], i: usize, inner: bool, shapes: &Vec<Shape>) -> (r: Option<
    (Vec<Value>, usize, bool),
>)
    requires
        buf@.len() + 64 <= usize::MAX,
        i <= buf@.len() + 16,
    ensures
        match rd_tuple(buf@, i as int, inner, shapes_view(shapes@)) {
            Some((ds, j, inn)) => r matches Some((vs, k, b)) && values_data(vs@) == ds && k == j
                && b == inn && 0 <= j <= buf@.len() + 16,
            None => r is None,
        },
    decreases *shapes,
{
    let mut vals: Vec<Value> = Vec::new();
    let mut pos = i;
    let mut inn = inner;
    let mut m: usize = 0;
    assert(shapes_view(shapes@).take(0) =~= Seq::<ShapeModel>::empty());
    assert(values_data(vals@) =~= Seq::<Data>::empty());
    while m < shapes.len()
        invariant
            buf@.len() + 64 <= usize::MAX,
            m <= shapes@.len(),
            pos <= buf@.len() + 16,
            rd_tuple(buf@, i as int, inner, shapes_view(shapes@).take(m as int)) == Some(
                (values_data(vals@), pos as int, inn),
            ),
        decreases shapes@.len() - m,
    {
        let ghost prefix = shapes_view(shapes@).take(m + 1);
        assert(prefix.drop_last() =~= shapes_view(shapes@).take(m as int));
        assert(prefix.last() == shapes@[m as int]@);
        assert(decreases_to!(*shapes => shapes@));
        assert(decreases_to!(shapes@ => shapes@[m as int]));
        match parse_value(buf, pos, inn, &shapes[m]) {
            Some((v, next, b)) => {
                let ghost prev = vals@;
                vals.push(v);
                assert(vals@.drop_last() =~= prev);
                pos = next;
                inn = b;
                m = m + 1;
            },
            None => {
                proof {
                    lemma_rd_tuple_prefix_fails(buf@, i as int, inner, shapes_view(shapes@), m + 1);
                }
                return None;
            },
        }
    }
    assert(shapes_view(shapes@).take(m as int) =~= shapes_view(shapes@));
    Some((vals, pos, inn))
}

/// Where reading the first `n` values fails, reading all of them fails.
proof fn lemma_rd_tuple_prefix_fails(
    buf: Seq<u8>,
    i: int,
    inner: bool,
    shapes: Seq<ShapeModel>,
    n: int,
)
    requires
        0 <= n <= shapes.len(),
        rd_tuple(buf, i, inner, shapes.take(n)) is None,
    ensures
        rd_tuple(buf, i, inner, shapes) is None,
    decreases shapes.len(),
{
    if n < shapes.len() {
        assert(shapes.drop_last().take(n) =~= shapes.take(n));
        lemma_rd_tuple_prefix_fails(buf, i, inner, shapes.drop_last(), n);
    } else {
        assert(shapes.take(n) =~= shapes);
    }
}

/// The model of an object shape lists the models of its field shapes.
pub proof fn lemma_object_shape_view(shapes: Vec<Shape>)
    ensures
        Shape::Object(shapes)@ == ShapeModel::Object(shapes_view(shapes@)),
{
    let v = Shape::Object(shapes)@;
    assert(v is Object);
    assert(v->Object_0 =~= shapes_view(shapes@));
}

impl JvmSerializer {
    /// Skips the head, which a writer's `write_head` wrote, and reads on after
    /// it. A head that does not hold (see `can_read_head`) is left out.
    pub fn read_head(&mut self)
        requires
            old(self)@.buf.len() + 64 <= usize::MAX,
            rd_head(old(self)@.buf) is Some,
        ensures
            rd_head(old(self)@.buf) matches Some(i) && 0 <= i && final(self)@ == (JvmState {
                read_idx: i as nat,
                ..old(self)@
            }),
            reader_ready(final(self)@),
    {
        match parse_head(self.input()) {
            Some(i) => {
                let inner = self.inner_flag();
                self.set_read_state(i, inner);
            },
            None => {},
        }
    }

    /// Whether the input holds a head that `read_head` can skip.
    pub fn can_read_head(&self) -> (r: bool)
        requires
            self@.buf.len() + 64 <= usize::MAX,
        ensures
            r == rd_head(self@.buf) is Some,
    {
        parse_head(self.input()).is_some()
    }

    /// Reads a big-endian `i32`. Input too short for one is left out (see
    /// `can_read_i32`).
    pub fn deserialize_i32(&mut self) -> (v: i32)
        requires
            reader_ready(old(self)@),
            rd_i32(old(self)@.buf, old(self)@.read_idx as int) is Some,
        ensures
            rd_i32(old(self)@.buf, old(self)@.read_idx as int) matches Some((x, j)) && v == x
                && final(self)@ == (JvmState { read_idx: j as nat, ..old(self)@ }),
            reader_ready(final(self)@),
    {
        match parse_i32(self.input(), self.read_pos()) {
            Some((v, j)) => {
                let inner = self.inner_flag();
                self.set_read_state(j, inner);
                v
            },
            None => 0,
        }
    }

    /// Whether an `i32` can be read where reading goes on.
    pub fn can_read_i32(&self) -> (r: bool)
        requires
            reader_ready(self@),
        ensures
            r == rd_i32(self@.buf, self@.read_idx as int) is Some,
    {
        parse_i32(self.input(), self.read_pos()).is_some()
    }

    /// Reads a string: a tag byte, a length, the bytes. Input that does not
    /// hold one is left out (see `can_read_string`).
    pub fn deserialize_string(&mut self) -> (s: String)
        requires
            reader_ready(old(self)@),
            rd_string(old(self)@.buf, old(self)@.read_idx as int) is Some,
        ensures
            rd_string(old(self)@.buf, old(self)@.read_idx as int) matches Some((t, j)) && s@ == t
                && final(self)@ == (JvmState { read_idx: j as nat, ..old(self)@ }),
            reader_ready(final(self)@),
    {
        match parse_string(self.input(), self.read_pos()) {
            Some((s, j)) => {
                let inner = self.inner_flag();
                self.set_read_state(j, inner);
                s
            },
            None => String::new(),
        }
    }

    /// Whether a string can be read where reading goes on.
    pub fn can_read_string(&self) -> (r: bool)
        requires
            reader_ready(self@),
        ensures
            r == rd_string(self@.buf, self@.read_idx as int) is Some,
    {
        parse_string(self.input(), self.read_pos()).is_some()
    }

    /// Reads a value of the given shape. Input that does not hold one is left
    /// out (see `can_read_value`).
    pub fn deserialize_value(&mut self, shape: &Shape) -> (v: Value)
        requires
            reader_ready(old(self)@),
            rd_value(old(self)@.buf, old(self)@.read_idx as int, old(self)@.inner, shape@) is Some,
        ensures
            rd_value(old(self)@.buf, old(self)@.read_idx as int, old(self)@.inner, shape@) matches Some(
                (d, j, inn),
            ) && v@ == d && final(self)@ == (JvmState {
                read_idx: j as nat,
                inner: inn,
                ..old(self)@
            }),
            reader_ready(final(self)@),
    {
        let inner = self.inner_flag();
        match parse_value(self.input(), self.read_pos(), inner, shape) {
            Some((v, j, inn)) => {
                self.set_read_state(j, inn);
                v
            },
            None => Value::I32(0),
        }
    }

    /// Whether a value of the given shape can be read where reading goes on.
    pub fn can_read_value(&self, shape: &Shape) -> (r: bool)
        requires
            reader_ready(self@),
        ensures
            r == rd_value(self@.buf, self@.read_idx as int, self@.inner, shape@) is Some,
    {
        parse_value(self.input(), self.read_pos(), self.inner_flag(), shape).is_some()
    }

    /// Whether reading can go on: the input is not within 64 bytes of
    /// `usize::MAX` in length, and the position not past 16 bytes beyond its end.
    pub fn can_read(&self) -> (r: bool)
        ensures
            r == reader_ready(self@),
    {
        let n = self.input().len();
        n <= usize::MAX - 64 && self.read_pos() <= n + 16
    }

    /// Reads what precedes a struct of `field_count` fields: where the next
    /// byte is 115 (`TC_OBJECT`), a nested object's header, its descriptors
    /// and the seven closing bytes, after which the fields count as nested.
    /// A header that does not hold is left out (see `can_read_struct_header`).
    pub fn deserialize_struct_header(&mut self, field_count: usize)
        requires
            reader_ready(old(self)@),
            rd_struct_prefix(old(self)@.buf, old(self)@.read_idx as int, field_count as nat) is Some,
        ensures
            rd_struct_prefix(old(self)@.buf, old(self)@.read_idx as int, field_count as nat) matches Some(
                (j, seen),
            ) && final(self)@ == (JvmState {
                read_idx: j as nat,
                inner: old(self)@.inner || seen,
                ..old(self)@
            }),
            reader_ready(final(self)@),
    {
        let inner = self.inner_flag();
        match parse_struct_prefix(self.input(), self.read_pos(), field_count) {
            Some((j, seen)) => {
                self.set_read_state(j, inner || seen);
            },
            None => {},
        }
    }

    /// Whether what precedes a struct of `field_count` fields can be read.
    pub fn can_read_struct_header(&self, field_count: usize) -> (r: bool)
        requires
            reader_ready(self@),
        ensures
            r == rd_struct_prefix(self@.buf, self@.read_idx as int, field_count as nat) is Some,
    {
        parse_struct_prefix(self.input(), self.read_pos(), field_count).is_some()
    }

    /// Reads a struct with fields of the given shapes: a nested object's
    /// header if there is one, then the fields' values in order. Input that
    /// does not hold one is left out (see `can_read_value`).
    pub fn deserialize_struct(&mut self, shapes: &Vec<Shape>) -> (vs: Vec<Value>)
        requires
            reader_ready(old(self)@),
            rd_value(
                old(self)@.buf,
                old(self)@.read_idx as int,
                old(self)@.inner,
                ShapeModel::Object(shapes_view(shapes@)),
            ) is Some,
        ensures
            rd_value(
                old(self)@.buf,
                old(self)@.read_idx as int,
                old(self)@.inner,
                ShapeModel::Object(shapes_view(shapes@)),
            ) matches Some((d, j, inn)) && d == Data::Object(values_data(vs@)) && final(self)@
                == (JvmState { read_idx: j as nat, inner: inn, ..old(self)@ }),
            reader_ready(final(self)@),
    {
        let i = self.read_pos();
        let inner = self.inner_flag();
        let buf = self.input();
        match parse_struct_prefix(buf, i, shapes.len()) {
            Some((j, seen)) => match parse_tuple(buf, j, inner || seen, shapes) {
                Some((vals, e, inn)) => {
                    self.set_read_state(e, inn);
                    vals
                },
                None => Vec::new(),
            },
            None => Vec::new(),
        }
    }

    /// Reads values of the given shapes one after the other. Input that does
    /// not hold them is left out (see `can_read_tuple`).
    pub fn deserialize_tuple(&mut self, shapes: &Vec<Shape>) -> (vs: Vec<Value>)
        requires
            reader_ready(old(self)@),
            rd_tuple(
                old(self)@.buf,
                old(self)@.read_idx as int,
                old(self)@.inner,
                shapes_view(shapes@),
            ) is Some,
        ensures
            rd_tuple(
                old(self)@.buf,
                old(self)@.read_idx as int,
                old(self)@.inner,
                shapes_view(shapes@),
            ) matches Some((ds, j, inn)) && ds == values_data(vs@) && final(self)@ == (JvmState {
                read_idx: j as nat,
                inner: inn,
                ..old(self)@
            }),
            reader_ready(final(self)@),
    {
        let inner = self.inner_flag();
        match parse_tuple(self.input(), self.read_pos(), inner, shapes) {
            Some((vals, e, inn)) => {
                self.set_read_state(e, inn);
                vals
            },
            None => Vec::new(),
        }
    }

    /// Whether values of the given shapes can be read one after the other.
    pub fn can_read_tuple(&self, shapes: &Vec<Shape>) -> (r: bool)
        requires
            reader_ready(self@),
        ensures
            r == rd_tuple(self@.buf, self@.read_idx as int, self@.inner, shapes_view(shapes@)) is Some,
    {
        parse_tuple(self.input(), self.read_pos(), self.inner_flag(), shapes).is_some()
    }
}

} // verus!

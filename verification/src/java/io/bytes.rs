//! Big-endian encodings and the byte-level pieces of the stream format.
use vstd::prelude::*;

verus! {

/// The two bytes of `x`, most significant first.
pub open spec fn be16(x: u16) -> Seq<u8> {
    seq![(x >> 8u16) as u8, x as u8]
}

/// The four bytes of `x`, most significant first.
pub open spec fn be32(x: u32) -> Seq<u8> {
    seq![(x >> 24u32) as u8, (x >> 16u32) as u8, (x >> 8u32) as u8, x as u8]
}

/// The eight bytes of `x`, most significant first.
pub open spec fn be64(x: u64) -> Seq<u8> {
    seq![
        (x >> 56u64) as u8,
        (x >> 48u64) as u8,
        (x >> 40u64) as u8,
        (x >> 32u64) as u8,
        (x >> 24u64) as u8,
        (x >> 16u64) as u8,
        (x >> 8u64) as u8,
        x as u8,
    ]
}

/// The unsigned 16-bit number whose big-endian bytes are `b0`, `b1`.
pub open spec fn u16_of(b0: u8, b1: u8) -> u16 {
    ((b0 as u16) << 8u16) | (b1 as u16)
}

/// The unsigned 32-bit number whose big-endian bytes are `b0` .. `b3`.
pub open spec fn u32_of(b0: u8, b1: u8, b2: u8, b3: u8) -> u32 {
    ((b0 as u32) << 24u32) | ((b1 as u32) << 16u32) | ((b2 as u32) << 8u32) | (b3 as u32)
}

/// The length prefix written in front of a string of `n` bytes: `n` taken as
/// a 16-bit signed number (so modulo 2^16), big-endian.
pub open spec fn len_prefix(n: nat) -> Seq<u8> {
    be16((n % 0x10000) as u16)
}

/// The length that a reader takes from a 2-byte prefix, where the prefix is
/// not negative as a 16-bit signed number.
pub open spec fn prefix_len(b0: u8, b1: u8) -> nat {
    u16_of(b0, b1) as nat
}

pub proof fn lemma_u16_round_trip(x: u16)
    ensures
        u16_of(be16(x)[0], be16(x)[1]) == x,
{
    let b0 = (x >> 8u16) as u8;
    let b1 = x as u8;
    assert(u16_of(b0, b1) == x) by (bit_vector)
        requires
            b0 == (x >> 8u16) as u8,
            b1 == x as u8,
    ;
}

pub proof fn lemma_u32_round_trip(x: u32)
    ensures
        u32_of(be32(x)[0], be32(x)[1], be32(x)[2], be32(x)[3]) == x,
{
    let b0 = (x >> 24u32) as u8;
    let b1 = (x >> 16u32) as u8;
    let b2 = (x >> 8u32) as u8;
    let b3 = x as u8;
    assert(u32_of(b0, b1, b2, b3) == x) by (bit_vector)
        requires
            b0 == (x >> 24u32) as u8,
            b1 == (x >> 16u32) as u8,
            b2 == (x >> 8u32) as u8,
            b3 == x as u8,
    ;
}

/// A length below 2^15 reads back from its prefix, and its prefix's first
/// byte is below 128 (not negative as a signed 16-bit number).
pub proof fn lemma_len_prefix_round_trip(n: nat)
    requires
        n < 0x8000,
    ensures
        len_prefix(n).len() == 2,
        len_prefix(n)[0] < 128,
        prefix_len(len_prefix(n)[0], len_prefix(n)[1]) == n,
{
    let x = (n % 0x10000) as u16;
    assert(x == n);
    lemma_u16_round_trip(x);
    assert(((x >> 8u16) as u8) < 128) by (bit_vector)
        requires
            x < 0x8000,
    ;
}

/// The signed 32-bit number whose two's-complement bits are `x`.
pub open spec fn i32_of_bits(x: u32) -> i32 {
    x as i32
}

pub proof fn lemma_i32_bits(v: i32)
    ensures
        i32_of_bits(v as u32) == v,
{
    assert(((v as u32) as i32) == v) by (bit_vector);
}

/// The number that the bytes `b` spell big-endian, most significant first.
pub open spec fn be_value(b: Seq<u8>) -> nat
    decreases b.len(),
{
    if b.len() == 0 {
        0
    } else {
        be_value(b.drop_last()) * 256 + b.last() as nat
    }
}

/// The value of two bytes.
pub proof fn lemma_be_value_2(b: Seq<u8>)
    requires
        b.len() == 2,
    ensures
        be_value(b) == b[0] * 256 + b[1],
{
    reveal_with_fuel(be_value, 3);
    assert(b.drop_last().drop_last() =~= Seq::<u8>::empty());
}

/// The value of four bytes.
pub proof fn lemma_be_value_4(b: Seq<u8>)
    requires
        b.len() == 4,
    ensures
        be_value(b) == ((b[0] * 256 + b[1]) * 256 + b[2]) * 256 + b[3],
{
    let b3 = b.drop_last();
    let b2 = b3.drop_last();
    lemma_be_value_2(b2);
    assert(b2[0] == b[0] && b2[1] == b[1]);
    assert(be_value(b3) == be_value(b2) * 256 + b[2]);
    assert(be_value(b) == be_value(b3) * 256 + b[3]);
}

/// The value of eight bytes.
pub proof fn lemma_be_value_8(b: Seq<u8>)
    requires
        b.len() == 8,
    ensures
        be_value(b) == ((((((b[0] * 256 + b[1]) * 256 + b[2]) * 256 + b[3]) * 256 + b[4]) * 256
            + b[5]) * 256 + b[6]) * 256 + b[7],
{
    let b7 = b.drop_last();
    let b6 = b7.drop_last();
    let b5 = b6.drop_last();
    let b4 = b5.drop_last();
    lemma_be_value_4(b4);
    assert(b4[0] == b[0] && b4[1] == b[1] && b4[2] == b[2] && b4[3] == b[3]);
    assert(be_value(b5) == be_value(b4) * 256 + b[4]);
    assert(be_value(b6) == be_value(b5) * 256 + b[5]);
    assert(be_value(b7) == be_value(b6) * 256 + b[6]);
    assert(be_value(b) == be_value(b7) * 256 + b[7]);
}

/// Two bytes written for `x` spell `x`.
pub proof fn lemma_be16_value(x: u16)
    ensures
        be16(x).len() == 2,
        be_value(be16(x)) == x,
{
    lemma_be_value_2(be16(x));
    let b0 = (x >> 8u16) as u8;
    let b1 = x as u8;
    assert(b0 as int * 256 + b1 as int == x as int) by (bit_vector)
        requires
            b0 == (x >> 8u16) as u8,
            b1 == x as u8,
    ;
}

/// Four bytes written for `x` spell `x`.
pub proof fn lemma_be32_value(x: u32)
    ensures
        be32(x).len() == 4,
        be_value(be32(x)) == x,
{
    lemma_be_value_4(be32(x));
    let b0 = (x >> 24u32) as u8;
    let b1 = (x >> 16u32) as u8;
    let b2 = (x >> 8u32) as u8;
    let b3 = x as u8;
    assert(((b0 as int * 256 + b1 as int) * 256 + b2 as int) * 256 + b3 as int == x as int)
        by (bit_vector)
        requires
            b0 == (x >> 24u32) as u8,
            b1 == (x >> 16u32) as u8,
            b2 == (x >> 8u32) as u8,
            b3 == x as u8,
    ;
}

/// Eight bytes written for `x` spell `x`.
pub proof fn lemma_be64_value(x: u64)
    ensures
        be64(x).len() == 8,
        be_value(be64(x)) == x,
{
    lemma_be_value_8(be64(x));
    let b0 = (x >> 56u64) as u8;
    let b1 = (x >> 48u64) as u8;
    let b2 = (x >> 40u64) as u8;
    let b3 = (x >> 32u64) as u8;
    let b4 = (x >> 24u64) as u8;
    let b5 = (x >> 16u64) as u8;
    let b6 = (x >> 8u64) as u8;
    let b7 = x as u8;
    assert(((((((b0 as int * 256 + b1 as int) * 256 + b2 as int) * 256 + b3 as int) * 256
        + b4 as int) * 256 + b5 as int) * 256 + b6 as int) * 256 + b7 as int == x as int)
        by (bit_vector)
        requires
            b0 == (x >> 56u64) as u8,
            b1 == (x >> 48u64) as u8,
            b2 == (x >> 40u64) as u8,
            b3 == (x >> 32u64) as u8,
            b4 == (x >> 24u64) as u8,
            b5 == (x >> 16u64) as u8,
            b6 == (x >> 8u64) as u8,
            b7 == x as u8,
    ;
}

/// Appends the big-endian bytes of `x`.
pub fn push_be16(out: &mut Vec<u8>, x: u16)
    ensures
        final(out)@ == old(out)@ + be16(x),
{
    out.push((x >> 8u16) as u8);
    out.push(x as u8);
    assert(final(out)@ =~= old(out)@ + be16(x));
}

/// Appends the big-endian bytes of `x`.
pub fn push_be32(out: &mut Vec<u8>, x: u32)
    ensures
        final(out)@ == old(out)@ + be32(x),
{
    out.push((x >> 24u32) as u8);
    out.push((x >> 16u32) as u8);
    out.push((x >> 8u32) as u8);
    out.push(x as u8);
    assert(final(out)@ =~= old(out)@ + be32(x));
}

/// Appends the big-endian bytes of `x`.
pub fn push_be64(out: &mut Vec<u8>, x: u64)
    ensures
        final(out)@ == old(out)@ + be64(x),
{
    out.push((x >> 56u64) as u8);
    out.push((x >> 48u64) as u8);
    out.push((x >> 40u64) as u8);
    out.push((x >> 32u64) as u8);
    out.push((x >> 24u64) as u8);
    out.push((x >> 16u64) as u8);
    out.push((x >> 8u64) as u8);
    out.push(x as u8);
    assert(final(out)@ =~= old(out)@ + be64(x));
}

/// Appends the length prefix of a string of `n` bytes.
pub fn push_len_prefix(out: &mut Vec<u8>, n: usize)
    ensures
        final(out)@ == old(out)@ + len_prefix(n as nat),
{
    push_be16(out, (n % 0x10000) as u16);
}

/// Appends all of `bytes`.
pub fn push_all(out: &mut Vec<u8>, bytes: &[u8])
    ensures
        final(out)@ == old(out)@ + bytes@,
{
    let mut i: usize = 0;
    while i < bytes.len()
        invariant
            0 <= i <= bytes@.len(),
            out@ == old(out)@ + bytes@.subrange(0, i as int),
        decreases bytes@.len() - i,
    {
        out.push(bytes[i]);
        i = i + 1;
        assert(out@ =~= old(out)@ + bytes@.subrange(0, i as int));
    }
    assert(bytes@.subrange(0, i as int) =~= bytes@);
}

/// Whether two byte strings are equal.
pub fn bytes_eq(a: &[u8], b: &[u8]) -> (r: bool)
    ensures
        r == (a@ == b@),
{
    if a.len() != b.len() {
        return false;
    }
    let mut i: usize = 0;
    while i < a.len()
        invariant
            a@.len() == b@.len(),
            0 <= i <= a@.len(),
            forall|j: int| 0 <= j < i ==> a@[j] == b@[j],
        decreases a@.len() - i,
    {
        if a[i] != b[i] {
            return false;
        }
        i = i + 1;
    }
    assert(a@ =~= b@);
    true
}

} // verus!

//! Fixed-width fields: their numeric values and how they are cut off the
//! front of an input.

use vstd::prelude::*;
use vstd::slice::slice_to_vec;

verus! {

/// The value of `s` read as a big-endian unsigned integer.
pub open spec fn be_value(s: Seq<u8>) -> nat
    decreases s.len(),
{
    if s.len() == 0 {
        0
    } else {
        be_value(s.drop_last()) * 256 + s.last() as nat
    }
}

/// The value of `s` read as a little-endian unsigned integer.
pub open spec fn le_value(s: Seq<u8>) -> nat
    decreases s.len(),
{
    if s.len() == 0 {
        0
    } else {
        s.first() as nat + 256 * le_value(s.drop_first())
    }
}

/// The big-endian value of a two-byte field.
pub fn be_u16_value(s: &[u8]) -> (r: usize)
    requires
        s@.len() == 2,
    ensures
        r == be_value(s@),
{
    proof {
        reveal_with_fuel(be_value, 3);
        assert(s@.drop_last().drop_last() =~= Seq::<u8>::empty());
    }
    (s[0] as usize) * 256 + (s[1] as usize)
}

/// The big-endian value of a four-byte field.
pub fn be_u32_value(s: &[u8]) -> (r: usize)
    requires
        s@.len() == 4,
    ensures
        r == be_value(s@),
{
    proof {
        reveal_with_fuel(be_value, 5);
        assert(s@.drop_last().drop_last().drop_last().drop_last() =~= Seq::<u8>::empty());
    }
    let v: u32 = (s[0] as u32) * 16777216 + (s[1] as u32) * 65536 + (s[2] as u32) * 256
        + (s[3] as u32);
    v as usize
}

/// The little-endian value of a four-byte field.
pub fn le_u32_value(s: &[u8]) -> (r: usize)
    requires
        s@.len() == 4,
    ensures
        r == le_value(s@),
{
    proof {
        reveal_with_fuel(le_value, 5);
        assert(s@.drop_first().drop_first().drop_first().drop_first() =~= Seq::<u8>::empty());
    }
    let v: u32 = (s[0] as u32) + (s[1] as u32) * 256 + (s[2] as u32) * 65536 + (s[3] as u32)
        * 16777216;
    v as usize
}

/// The four bytes of `v`, most significant first.
pub open spec fn be_u32_bytes(v: u32) -> Seq<u8> {
    seq![
        (v / 0x1000000) as u8,
        ((v / 0x10000) % 0x100) as u8,
        ((v / 0x100) % 0x100) as u8,
        (v % 0x100) as u8,
    ]
}

/// The four bytes of `v`, most significant first.
pub fn be_u32_bytes_of(v: u32) -> (r: Vec<u8>)
    ensures
        r@ == be_u32_bytes(v),
{
    let mut out: Vec<u8> = Vec::new();
    out.push((v / 0x1000000) as u8);
    out.push(((v / 0x10000) % 0x100) as u8);
    out.push(((v / 0x100) % 0x100) as u8);
    out.push((v % 0x100) as u8);
    assert(out@ =~= be_u32_bytes(v));
    out
}

/// A four-byte field holds a value below 2^32, and writing that value back
/// gives the same four bytes.
pub proof fn lemma_be_u32_bytes_of_value(s: Seq<u8>)
    requires
        s.len() == 4,
    ensures
        be_value(s) <= u32::MAX,
        be_u32_bytes(be_value(s) as u32) == s,
{
    reveal_with_fuel(be_value, 5);
    assert(s.drop_last().drop_last().drop_last().drop_last() =~= Seq::<u8>::empty());
    let (a, b, c, d) = (s[0] as int, s[1] as int, s[2] as int, s[3] as int);
    let v = be_value(s) as int;
    assert(v == a * 0x1000000 + b * 0x10000 + c * 0x100 + d);
    assert(v <= u32::MAX && v / 0x1000000 == a && (v / 0x10000) % 0x100 == b && (v / 0x100)
        % 0x100 == c && v % 0x100 == d) by (nonlinear_arith)
        requires
            0 <= a < 256,
            0 <= b < 256,
            0 <= c < 256,
            0 <= d < 256,
            v == a * 0x1000000 + b * 0x10000 + c * 0x100 + d,
    ;
    assert(be_u32_bytes(be_value(s) as u32) =~= s);
}

/// The four bytes of `v` read back as `v`.
pub proof fn lemma_be_value_of_u32_bytes(v: u32)
    ensures
        be_value(be_u32_bytes(v)) == v,
{
    let s = be_u32_bytes(v);
    reveal_with_fuel(be_value, 5);
    assert(s.drop_last().drop_last().drop_last().drop_last() =~= Seq::<u8>::empty());
    let x = v as int;
    assert(be_value(s) == (x / 0x1000000) * 0x1000000 + ((x / 0x10000) % 0x100) * 0x10000 + ((x
        / 0x100) % 0x100) * 0x100 + x % 0x100);
    assert((x / 0x1000000) * 0x1000000 + ((x / 0x10000) % 0x100) * 0x10000 + ((x / 0x100)
        % 0x100) * 0x100 + x % 0x100 == x) by (nonlinear_arith)
        requires
            0 <= x <= u32::MAX,
    ;
}

/// A four-byte field read big-endian.
pub proof fn lemma_be_value_4(s: Seq<u8>)
    requires
        s.len() == 4,
    ensures
        be_value(s) == (s[0] as int) * 0x1000000 + (s[1] as int) * 0x10000 + (s[2] as int) * 0x100
            + (s[3] as int),
{
    reveal_with_fuel(be_value, 5);
    assert(s.drop_last().drop_last().drop_last().drop_last() =~= Seq::<u8>::empty());
    assert(s.drop_last().drop_last().drop_last() =~= seq![s[0]]);
    assert(s.drop_last().drop_last() =~= seq![s[0], s[1]]);
    assert(s.drop_last() =~= seq![s[0], s[1], s[2]]);
}

/// A four-byte field read little-endian.
pub proof fn lemma_le_value_4(s: Seq<u8>)
    requires
        s.len() == 4,
    ensures
        le_value(s) == (s[0] as int) + (s[1] as int) * 0x100 + (s[2] as int) * 0x10000 + (s[3] as int)
            * 0x1000000,
{
    reveal_with_fuel(le_value, 5);
    assert(s.drop_first().drop_first().drop_first().drop_first() =~= Seq::<u8>::empty());
    assert(s.drop_first().drop_first().drop_first() =~= seq![s[3]]);
    assert(s.drop_first().drop_first() =~= seq![s[2], s[3]]);
    assert(s.drop_first() =~= seq![s[1], s[2], s[3]]);
}

/// Cuts the first `n` bytes off `input`: the remainder comes back as a slice,
/// the bytes cut off as an owned vector.
pub fn split_off<'a>(input: &'a [u8], n: usize) -> (r: (&'a [u8], Vec<u8>))
    requires
        n <= input@.len(),
    ensures
        r.1@ == input@.subrange(0, n as int),
        r.0@ == input@.subrange(n as int, input@.len() as int),
{
    let (head, rest) = input.split_at(n);
    (rest, slice_to_vec(head))
}

} // verus!

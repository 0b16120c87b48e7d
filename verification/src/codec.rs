//! The fixed binary layout of integers: little-endian, with every integer in
//! the full width of its type.

use vstd::prelude::*;

verus! {

/// The four bytes of `v`, lowest first.
pub open spec fn u32_le(v: u32) -> Seq<u8> {
    seq![
        (v % 256) as u8,
        (v / 256 % 256) as u8,
        (v / 256 / 256 % 256) as u8,
        (v / 256 / 256 / 256) as u8,
    ]
}

/// The number whose four bytes, lowest first, `bytes` starts with.
pub open spec fn u32_from_le(bytes: Seq<u8>) -> u32
    recommends
        bytes.len() >= 4,
{
    (bytes[0] + (bytes[1] + (bytes[2] + bytes[3] * 256) * 256) * 256) as u32
}

/// The unsigned number with the bits of `v` (two's complement).
pub open spec fn i32_bits(v: i32) -> u32 {
    if v >= 0 {
        v as u32
    } else {
        (v + 0x1_0000_0000) as u32
    }
}

/// The signed number with the bits of `u` (two's complement).
pub open spec fn i32_of_bits(u: u32) -> i32 {
    if u < 0x8000_0000 {
        u as i32
    } else {
        (u - 0x1_0000_0000) as i32
    }
}

/// The four bytes of `v` in two's complement, lowest first.
pub open spec fn i32_le(v: i32) -> Seq<u8> {
    u32_le(i32_bits(v))
}

/// The signed number whose four bytes `bytes` starts with.
pub open spec fn i32_from_le(bytes: Seq<u8>) -> i32
    recommends
        bytes.len() >= 4,
{
    i32_of_bits(u32_from_le(bytes))
}

/// The eight bytes of `v`, lowest first.
pub open spec fn u64_le(v: u64) -> Seq<u8> {
    u32_le((v % 0x1_0000_0000) as u32) + u32_le((v / 0x1_0000_0000) as u32)
}

/// The number whose eight bytes, lowest first, `bytes` starts with.
pub open spec fn u64_from_le(bytes: Seq<u8>) -> u64
    recommends
        bytes.len() >= 8,
{
    (u32_from_le(bytes) + u32_from_le(bytes.skip(4)) * 0x1_0000_0000) as u64
}

/// Reading the bytes of a number gives the number, and writing the number
/// read from four bytes gives these bytes.
pub proof fn lemma_u32_round_trip(v: u32, bytes: Seq<u8>)
    ensures
        u32_le(v).len() == 4,
        u32_from_le(u32_le(v)) == v,
        bytes.len() == 4 ==> u32_le(u32_from_le(bytes)) == bytes,
{
    if bytes.len() == 4 {
        assert(u32_le(u32_from_le(bytes)) =~= bytes);
    }
}

/// The same for signed numbers.
pub proof fn lemma_i32_round_trip(v: i32, bytes: Seq<u8>)
    ensures
        i32_le(v).len() == 4,
        i32_from_le(i32_le(v)) == v,
        bytes.len() == 4 ==> i32_le(i32_from_le(bytes)) == bytes,
{
    lemma_u32_round_trip(i32_bits(v), bytes);
}

/// The same for numbers of eight bytes.
pub proof fn lemma_u64_round_trip(v: u64, bytes: Seq<u8>)
    ensures
        u64_le(v).len() == 8,
        u64_from_le(u64_le(v)) == v,
        bytes.len() == 8 ==> u64_le(u64_from_le(bytes)) == bytes,
{
    lemma_u64_written_is_read(v);
    if bytes.len() == 8 {
        lemma_u64_read_is_written(bytes);
    }
}

proof fn lemma_u64_written_is_read(v: u64)
    ensures
        u64_le(v).len() == 8,
        u64_from_le(u64_le(v)) == v,
{
    let low = (v % 0x1_0000_0000) as u32;
    let high = (v / 0x1_0000_0000) as u32;
    let written = u64_le(v);
    lemma_u32_round_trip(low, seq![]);
    lemma_u32_round_trip(high, seq![]);
    assert(written.len() == 8);
    assert(u32_from_le(written) == low) by {
        let l = u32_le(low);
        assert(written[0] == l[0] && written[1] == l[1] && written[2] == l[2] && written[3] == l[3]);
    }
    assert(u32_from_le(written.skip(4)) == high) by {
        let h = u32_le(high);
        let s = written.skip(4);
        assert(s[0] == h[0] && s[1] == h[1] && s[2] == h[2] && s[3] == h[3]);
    }
    assert(low + high * 0x1_0000_0000 == v);
}

proof fn lemma_u64_read_is_written(bytes: Seq<u8>)
    requires
        bytes.len() == 8,
    ensures
        u64_le(u64_from_le(bytes)) == bytes,
{
    let low = u32_from_le(bytes);
    let high = u32_from_le(bytes.skip(4));
    let v = u64_from_le(bytes);
    assert(v == low + high * 0x1_0000_0000);
    assert(v % 0x1_0000_0000 == low);
    assert(v / 0x1_0000_0000 == high);
    lemma_u32_round_trip(0, bytes.take(4));
    lemma_u32_round_trip(0, bytes.skip(4));
    assert(u32_from_le(bytes.take(4)) == low);
    assert(u64_le(v) =~= bytes.take(4) + bytes.skip(4));
    assert(bytes.take(4) + bytes.skip(4) =~= bytes);
}

/// Appends the four bytes of `v` to `out`.
pub fn push_u32(out: &mut Vec<u8>, v: u32)
    ensures
        final(out)@ == old(out)@ + u32_le(v),
{
    out.push((v % 256) as u8);
    out.push((v / 256 % 256) as u8);
    out.push((v / 256 / 256 % 256) as u8);
    out.push((v / 256 / 256 / 256) as u8);
    assert(out@ =~= old(out)@ + u32_le(v));
}

/// Appends the four bytes of `v` to `out`.
pub fn push_i32(out: &mut Vec<u8>, v: i32)
    ensures
        final(out)@ == old(out)@ + i32_le(v),
{
    let bits: u32 = if v >= 0 {
        v as u32
    } else {
        ((v as i64) + 0x1_0000_0000) as u32
    };
    push_u32(out, bits);
}

/// Appends the eight bytes of `v` to `out`.
pub fn push_u64(out: &mut Vec<u8>, v: u64)
    ensures
        final(out)@ == old(out)@ + u64_le(v),
{
    push_u32(out, (v % 0x1_0000_0000) as u32);
    push_u32(out, (v / 0x1_0000_0000) as u32);
    assert(out@ =~= old(out)@ + u64_le(v));
}

/// Reads the number whose four bytes stand at `at` in `bytes`.
pub fn read_u32(bytes: &Vec<u8>, at: usize) -> (v: u32)
    requires
        at + 4 <= bytes.len(),
    ensures
        v == u32_from_le(bytes@.skip(at as int)),
{
    let b0 = bytes[at] as u32;
    let b1 = bytes[at + 1] as u32;
    let b2 = bytes[at + 2] as u32;
    let b3 = bytes[at + 3] as u32;
    b0 + (b1 + (b2 + b3 * 256) * 256) * 256
}

/// Reads the signed number whose four bytes stand at `at` in `bytes`.
pub fn read_i32(bytes: &Vec<u8>, at: usize) -> (v: i32)
    requires
        at + 4 <= bytes.len(),
    ensures
        v == i32_from_le(bytes@.skip(at as int)),
{
    let u = read_u32(bytes, at);
    if u < 0x8000_0000 {
        u as i32
    } else {
        ((u as i64) - 0x1_0000_0000) as i32
    }
}

/// Reads the number whose eight bytes stand at `at` in `bytes`.
pub fn read_u64(bytes: &Vec<u8>, at: usize) -> (v: u64)
    requires
        at + 8 <= bytes.len(),
    ensures
        v == u64_from_le(bytes@.skip(at as int)),
{
    let low = read_u32(bytes, at) as u64;
    let high = read_u32(bytes, at + 4) as u64;
    assert(bytes@.skip(at as int).skip(4) =~= bytes@.skip(at + 4));
    low + high * 0x1_0000_0000
}

} // verus!

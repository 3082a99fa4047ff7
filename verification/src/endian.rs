//! Big-endian encodings of the fixed-width integers used by the on-disk
//! formats. All multi-byte integers in the block and SST images are
//! big-endian.

use vstd::prelude::*;

verus! {

/// The two big-endian bytes of a `u16`.
pub open spec fn spec_u16_to_be_bytes(v: u16) -> Seq<u8> {
    seq![(v as int / 0x100) as u8, (v as int % 0x100) as u8]
}

/// The `u16` read from two big-endian bytes.
pub open spec fn spec_u16_from_be_bytes(s: Seq<u8>) -> u16
    recommends
        s.len() == 2,
{
    (s[0] as int * 0x100 + s[1] as int) as u16
}

/// The four big-endian bytes of a `u32`.
pub open spec fn spec_u32_to_be_bytes(v: u32) -> Seq<u8> {
    seq![
        (v as int / 0x1000000 % 0x100) as u8,
        (v as int / 0x10000 % 0x100) as u8,
        (v as int / 0x100 % 0x100) as u8,
        (v as int % 0x100) as u8,
    ]
}

/// The `u32` read from four big-endian bytes.
pub open spec fn spec_u32_from_be_bytes(s: Seq<u8>) -> u32
    recommends
        s.len() == 4,
{
    (s[0] as int * 0x1000000 + s[1] as int * 0x10000 + s[2] as int * 0x100 + s[3] as int) as u32
}

/// The eight big-endian bytes of a `u64`.
pub open spec fn spec_u64_to_be_bytes(v: u64) -> Seq<u8> {
    seq![
        (v as int / 0x100000000000000 % 0x100) as u8,
        (v as int / 0x1000000000000 % 0x100) as u8,
        (v as int / 0x10000000000 % 0x100) as u8,
        (v as int / 0x100000000 % 0x100) as u8,
        (v as int / 0x1000000 % 0x100) as u8,
        (v as int / 0x10000 % 0x100) as u8,
        (v as int / 0x100 % 0x100) as u8,
        (v as int % 0x100) as u8,
    ]
}

/// The `u64` read from eight big-endian bytes.
pub open spec fn spec_u64_from_be_bytes(s: Seq<u8>) -> u64
    recommends
        s.len() == 8,
{
    (s[0] as int * 0x100000000000000 + s[1] as int * 0x1000000000000 + s[2] as int
        * 0x10000000000 + s[3] as int * 0x100000000 + s[4] as int * 0x1000000 + s[5] as int
        * 0x10000 + s[6] as int * 0x100 + s[7] as int) as u64
}

/// Reading back the big-endian bytes of a `u16` returns the value.
pub proof fn lemma_u16_be_round_trip(v: u16)
    ensures
        spec_u16_from_be_bytes(spec_u16_to_be_bytes(v)) == v,
{
}

/// Reading back the big-endian bytes of a `u32` returns the value.
pub proof fn lemma_u32_be_round_trip(v: u32)
    ensures
        spec_u32_from_be_bytes(spec_u32_to_be_bytes(v)) == v,
{
}

/// Reading back the big-endian bytes of a `u64` returns the value.
#[verifier::rlimit(100)]
pub proof fn lemma_u64_be_round_trip(v: u64)
    ensures
        spec_u64_from_be_bytes(spec_u64_to_be_bytes(v)) == v,
{
    let x = v as int;
    let b = 0x100 as int;
    let q1 = x / b;
    let q2 = q1 / b;
    let q3 = q2 / b;
    let q4 = q3 / b;
    let q5 = q4 / b;
    let q6 = q5 / b;
    let q7 = q6 / b;
    vstd::arithmetic::div_mod::lemma_div_denominator(x, 0x100, 0x100);
    vstd::arithmetic::div_mod::lemma_div_denominator(x, 0x10000, 0x100);
    vstd::arithmetic::div_mod::lemma_div_denominator(x, 0x1000000, 0x100);
    vstd::arithmetic::div_mod::lemma_div_denominator(x, 0x100000000, 0x100);
    vstd::arithmetic::div_mod::lemma_div_denominator(x, 0x10000000000, 0x100);
    vstd::arithmetic::div_mod::lemma_div_denominator(x, 0x1000000000000, 0x100);
    assert(q2 == x / 0x10000);
    assert(q3 == x / 0x1000000);
    assert(q4 == x / 0x100000000);
    assert(q5 == x / 0x10000000000);
    assert(q6 == x / 0x1000000000000);
    assert(q7 == x / 0x100000000000000);
    vstd::arithmetic::div_mod::lemma_fundamental_div_mod(x, b);
    vstd::arithmetic::div_mod::lemma_fundamental_div_mod(q1, b);
    vstd::arithmetic::div_mod::lemma_fundamental_div_mod(q2, b);
    vstd::arithmetic::div_mod::lemma_fundamental_div_mod(q3, b);
    vstd::arithmetic::div_mod::lemma_fundamental_div_mod(q4, b);
    vstd::arithmetic::div_mod::lemma_fundamental_div_mod(q5, b);
    vstd::arithmetic::div_mod::lemma_fundamental_div_mod(q6, b);
    vstd::arithmetic::div_mod::lemma_div_pos_is_pos(x, 0x100000000000000);
    vstd::arithmetic::div_mod::lemma_div_is_ordered(x, 0xffffffffffffffff, 0x100000000000000);
    assert(q7 < 0x100);
    vstd::arithmetic::div_mod::lemma_small_mod(q7 as nat, 0x100);
    assert(q7 % b == q7);
}

/// Writing back the value read from eight big-endian bytes returns those
/// bytes: eight-byte fields and `u64` values correspond one to one.
#[verifier::rlimit(100)]
pub proof fn lemma_u64_be_bytes_round_trip(s: Seq<u8>)
    requires
        s.len() == 8,
    ensures
        spec_u64_to_be_bytes(spec_u64_from_be_bytes(s)) == s,
{
    let b0 = s[0] as int;
    let b1 = s[1] as int;
    let b2 = s[2] as int;
    let b3 = s[3] as int;
    let b4 = s[4] as int;
    let b5 = s[5] as int;
    let b6 = s[6] as int;
    let b7 = s[7] as int;
    let total = b0 * 0x100000000000000 + b1 * 0x1000000000000 + b2 * 0x10000000000 + b3
        * 0x100000000 + b4 * 0x1000000 + b5 * 0x10000 + b6 * 0x100 + b7;
    let v = spec_u64_from_be_bytes(s);
    assert(0 <= total < 0x10000000000000000);
    assert(v as int == total);
    let q0 = b0;
    let q1 = b0 * 0x100 + b1;
    let q2 = b0 * 0x10000 + b1 * 0x100 + b2;
    let q3 = b0 * 0x1000000 + b1 * 0x10000 + b2 * 0x100 + b3;
    let q4 = b0 * 0x100000000 + b1 * 0x1000000 + b2 * 0x10000 + b3 * 0x100 + b4;
    let q5 = b0 * 0x10000000000 + b1 * 0x100000000 + b2 * 0x1000000 + b3 * 0x10000 + b4 * 0x100
        + b5;
    let q6 = b0 * 0x1000000000000 + b1 * 0x10000000000 + b2 * 0x100000000 + b3 * 0x1000000 + b4
        * 0x10000 + b5 * 0x100 + b6;
    vstd::arithmetic::div_mod::lemma_fundamental_div_mod_converse(
        total,
        0x100000000000000,
        q0,
        total - q0 * 0x100000000000000,
    );
    vstd::arithmetic::div_mod::lemma_fundamental_div_mod_converse(
        total,
        0x1000000000000,
        q1,
        total - q1 * 0x1000000000000,
    );
    vstd::arithmetic::div_mod::lemma_fundamental_div_mod_converse(
        total,
        0x10000000000,
        q2,
        total - q2 * 0x10000000000,
    );
    vstd::arithmetic::div_mod::lemma_fundamental_div_mod_converse(
        total,
        0x100000000,
        q3,
        total - q3 * 0x100000000,
    );
    vstd::arithmetic::div_mod::lemma_fundamental_div_mod_converse(
        total,
        0x1000000,
        q4,
        total - q4 * 0x1000000,
    );
    vstd::arithmetic::div_mod::lemma_fundamental_div_mod_converse(
        total,
        0x10000,
        q5,
        total - q5 * 0x10000,
    );
    vstd::arithmetic::div_mod::lemma_fundamental_div_mod_converse(
        total,
        0x100,
        q6,
        total - q6 * 0x100,
    );
    vstd::arithmetic::div_mod::lemma_fundamental_div_mod_converse(q1, 0x100, b0, b1);
    vstd::arithmetic::div_mod::lemma_fundamental_div_mod_converse(q2, 0x100, q1, b2);
    vstd::arithmetic::div_mod::lemma_fundamental_div_mod_converse(q3, 0x100, q2, b3);
    vstd::arithmetic::div_mod::lemma_fundamental_div_mod_converse(q4, 0x100, q3, b4);
    vstd::arithmetic::div_mod::lemma_fundamental_div_mod_converse(q5, 0x100, q4, b5);
    vstd::arithmetic::div_mod::lemma_fundamental_div_mod_converse(q6, 0x100, q5, b6);
    vstd::arithmetic::div_mod::lemma_small_mod(b0 as nat, 0x100);
    assert(spec_u64_to_be_bytes(v) =~= s);
}

/// Two distinct eight-byte fields read as distinct values.
pub proof fn lemma_u64_be_bytes_injective(s: Seq<u8>, t: Seq<u8>)
    requires
        s.len() == 8,
        t.len() == 8,
        spec_u64_from_be_bytes(s) == spec_u64_from_be_bytes(t),
    ensures
        s == t,
{
    lemma_u64_be_bytes_round_trip(s);
    lemma_u64_be_bytes_round_trip(t);
}

/// Appends the two big-endian bytes of `v`.
pub fn push_u16_be(buf: &mut Vec<u8>, v: u16)
    ensures
        final(buf)@ =~= old(buf)@ + spec_u16_to_be_bytes(v),
{
    buf.push((v / 0x100) as u8);
    buf.push((v % 0x100) as u8);
}

/// Appends the four big-endian bytes of `v`.
pub fn push_u32_be(buf: &mut Vec<u8>, v: u32)
    ensures
        final(buf)@ =~= old(buf)@ + spec_u32_to_be_bytes(v),
{
    buf.push((v / 0x1000000 % 0x100) as u8);
    buf.push((v / 0x10000 % 0x100) as u8);
    buf.push((v / 0x100 % 0x100) as u8);
    buf.push((v % 0x100) as u8);
}

/// Appends the eight big-endian bytes of `v`.
pub fn push_u64_be(buf: &mut Vec<u8>, v: u64)
    ensures
        final(buf)@ =~= old(buf)@ + spec_u64_to_be_bytes(v),
{
    buf.push((v / 0x100000000000000 % 0x100) as u8);
    buf.push((v / 0x1000000000000 % 0x100) as u8);
    buf.push((v / 0x10000000000 % 0x100) as u8);
    buf.push((v / 0x100000000 % 0x100) as u8);
    buf.push((v / 0x1000000 % 0x100) as u8);
    buf.push((v / 0x10000 % 0x100) as u8);
    buf.push((v / 0x100 % 0x100) as u8);
    buf.push((v % 0x100) as u8);
}

/// Reads the big-endian `u16` at byte position `pos`.
pub fn read_u16_be(buf: &[u8], pos: usize) -> (v: u16)
    requires
        pos + 2 <= buf@.len(),
    ensures
        v == spec_u16_from_be_bytes(buf@.subrange(pos as int, pos as int + 2)),
{
    let ghost s = buf@.subrange(pos as int, pos as int + 2);
    let b0 = buf[pos];
    let b1 = buf[pos + 1];
    proof {
        assert(s[0] == buf@[pos as int]);
        assert(s[1] == buf@[pos as int + 1]);
    }
    b0 as u16 * 0x100 + b1 as u16
}

/// Reads the big-endian `u32` at byte position `pos`.
pub fn read_u32_be(buf: &[u8], pos: usize) -> (v: u32)
    requires
        pos + 4 <= buf@.len(),
    ensures
        v == spec_u32_from_be_bytes(buf@.subrange(pos as int, pos as int + 4)),
{
    let ghost s = buf@.subrange(pos as int, pos as int + 4);
    let b0 = buf[pos];
    let b1 = buf[pos + 1];
    let b2 = buf[pos + 2];
    let b3 = buf[pos + 3];
    proof {
        assert(s[0] == buf@[pos as int]);
        assert(s[1] == buf@[pos as int + 1]);
        assert(s[2] == buf@[pos as int + 2]);
        assert(s[3] == buf@[pos as int + 3]);
    }
    b0 as u32 * 0x1000000 + b1 as u32 * 0x10000 + b2 as u32 * 0x100 + b3 as u32
}

/// Reads the big-endian `u64` at byte position `pos`.
pub fn read_u64_be(buf: &[u8], pos: usize) -> (v: u64)
    requires
        pos + 8 <= buf@.len(),
    ensures
        v == spec_u64_from_be_bytes(buf@.subrange(pos as int, pos as int + 8)),
{
    let ghost s = buf@.subrange(pos as int, pos as int + 8);
    let b0 = buf[pos];
    let b1 = buf[pos + 1];
    let b2 = buf[pos + 2];
    let b3 = buf[pos + 3];
    let b4 = buf[pos + 4];
    let b5 = buf[pos + 5];
    let b6 = buf[pos + 6];
    let b7 = buf[pos + 7];
    proof {
        assert(s[0] == buf@[pos as int]);
        assert(s[1] == buf@[pos as int + 1]);
        assert(s[2] == buf@[pos as int + 2]);
        assert(s[3] == buf@[pos as int + 3]);
        assert(s[4] == buf@[pos as int + 4]);
        assert(s[5] == buf@[pos as int + 5]);
        assert(s[6] == buf@[pos as int + 6]);
        assert(s[7] == buf@[pos as int + 7]);
    }
    b0 as u64 * 0x100000000000000 + b1 as u64 * 0x1000000000000 + b2 as u64 * 0x10000000000
        + b3 as u64 * 0x100000000 + b4 as u64 * 0x1000000 + b5 as u64 * 0x10000 + b6 as u64
        * 0x100 + b7 as u64
}

} // verus!

//! Small executable helpers for copying and appending raw byte ranges.

use vstd::prelude::*;

verus! {

/// Copies the byte range `[start, end)` of `s` into a fresh vector.
pub fn copy_range(s: &[u8], start: usize, end: usize) -> (r: Vec<u8>)
    requires
        start <= end <= s@.len(),
    ensures
        r@ == s@.subrange(start as int, end as int),
{
    let sub = vstd::slice::slice_subrange(s, start, end);
    vstd::slice::slice_to_vec(sub)
}

/// A window of `s` known to equal `t` has the matching sub-windows of `t`.
pub proof fn lemma_subrange_of_eq(s: Seq<u8>, pos: int, t: Seq<u8>, a: int, b: int)
    requires
        0 <= pos,
        pos + t.len() <= s.len(),
        s.subrange(pos, pos + t.len()) == t,
        0 <= a <= b <= t.len(),
    ensures
        s.subrange(pos + a, pos + b) == t.subrange(a, b),
{
    assert forall|k: int| 0 <= k < b - a implies s.subrange(pos + a, pos + b)[k] == t.subrange(
        a,
        b,
    )[k] by {
        assert(s.subrange(pos, pos + t.len())[a + k] == t[a + k]);
    }
    assert(s.subrange(pos + a, pos + b) =~= t.subrange(a, b));
}

/// Appends all of `other` to `buf`.
pub fn append_bytes(buf: &mut Vec<u8>, other: &[u8])
    ensures
        final(buf)@ == old(buf)@ + other@,
{
    let mut i: usize = 0;
    proof {
        assert(buf@ =~= old(buf)@ + other@.subrange(0, 0));
    }
    while i < other.len()
        invariant
            i <= other@.len(),
            buf@ == old(buf)@ + other@.subrange(0, i as int),
        decreases other@.len() - i,
    {
        buf.push(other[i]);
        proof {
            assert(buf@ =~= old(buf)@ + other@.subrange(0, i as int + 1));
        }
        i += 1;
    }
    proof {
        assert(other@.subrange(0, other@.len() as int) =~= other@);
    }
}

} // verus!

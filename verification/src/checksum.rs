//! Fixed-seed stable 64-bit fingerprint used as the integrity checksum of
//! blocks and of the SST meta section.
//!
//! Both sides of the format must compute the same value for the same logical
//! object, in every process and on every machine, so the checksum is the
//! 64-bit FNV-1a fingerprint of a canonical byte encoding: first the data
//! bytes, then the big-endian bytes of the offsets (for a block), or the
//! encoded meta records (for the meta section).

use vstd::prelude::*;

verus! {

pub const FNV64_OFFSET_BASIS: u64 = 0xcbf29ce484222325;

pub const FNV64_PRIME: u64 = 0x100000001b3;

/// FNV-1a folding of `s` onto the running state `h`.
pub open spec fn spec_fingerprint64_from(h: u64, s: Seq<u8>) -> u64
    decreases s.len(),
{
    if s.len() == 0 {
        h
    } else {
        spec_fingerprint64_from((h ^ s[0] as u64).wrapping_mul(FNV64_PRIME), s.drop_first())
    }
}

/// The fixed-seed 64-bit fingerprint of a byte sequence.
pub open spec fn spec_fingerprint64(s: Seq<u8>) -> u64 {
    spec_fingerprint64_from(FNV64_OFFSET_BASIS, s)
}

/// Computes the fixed-seed 64-bit fingerprint of `bytes`.
pub fn fingerprint64(bytes: &[u8]) -> (h: u64)
    ensures
        h == spec_fingerprint64(bytes@),
{
    let mut h: u64 = FNV64_OFFSET_BASIS;
    let mut i: usize = 0;
    let len = bytes.len();
    proof {
        assert(bytes@.skip(0) =~= bytes@);
    }
    while i < len
        invariant
            i <= len,
            len == bytes@.len(),
            spec_fingerprint64(bytes@) == spec_fingerprint64_from(h, bytes@.skip(i as int)),
        decreases len - i,
    {
        let b = bytes[i];
        proof {
            assert(bytes@.skip(i as int)[0] == bytes@[i as int]);
            assert(bytes@.skip(i as int).drop_first() =~= bytes@.skip(i as int + 1));
        }
        h = (h ^ b as u64).wrapping_mul(FNV64_PRIME);
        i += 1;
    }
    h
}

} // verus!

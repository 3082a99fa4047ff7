//! The block codec: the smallest unit of read and caching in the engine.
//!
//! A block is an ordered sequence of key-value entries plus an offset vector.
//! Its encoded image is
//!
//! ```text
//! data_section | offset_section (u16 x N) | u16 N | u64 checksum
//! ```
//!
//! where each entry in the data section is `u16 key_len | key | u16 value_len
//! | value`, all integers big-endian. The checksum is the fixed-seed 64-bit
//! fingerprint of the data bytes followed by the big-endian offset bytes, so
//! two readers always agree on it.

pub mod builder;
pub mod iterator;

pub use builder::BlockBuilder;
pub use iterator::BlockIterator;

use vstd::prelude::*;

use crate::bytes_util::copy_range;
use crate::checksum::{fingerprint64, spec_fingerprint64};
use crate::endian::{
    lemma_u16_be_round_trip, lemma_u64_be_round_trip, push_u16_be, push_u64_be, read_u16_be,
    read_u64_be, spec_u16_from_be_bytes, spec_u16_to_be_bytes, spec_u64_from_be_bytes,
    spec_u64_to_be_bytes,
};
use crate::error::LsmError;

verus! {

/// The mathematical content of a block: the raw data section and the byte
/// position of each entry within it.
#[verifier::ext_equal]
pub struct BlockView {
    pub data: Seq<u8>,
    pub offsets: Seq<u16>,
}

/// Length of the key of the entry starting at byte `off` of `data`.
pub open spec fn entry_key_len(data: Seq<u8>, off: int) -> int {
    spec_u16_from_be_bytes(data.subrange(off, off + 2)) as int
}

/// Key of the entry starting at byte `off` of `data`.
pub open spec fn entry_key(data: Seq<u8>, off: int) -> Seq<u8> {
    data.subrange(off + 2, off + 2 + entry_key_len(data, off))
}

/// Length of the value of the entry starting at byte `off` of `data`.
pub open spec fn entry_value_len(data: Seq<u8>, off: int) -> int {
    let klen = entry_key_len(data, off);
    spec_u16_from_be_bytes(data.subrange(off + 2 + klen, off + 4 + klen)) as int
}

/// Value of the entry starting at byte `off` of `data`.
pub open spec fn entry_value(data: Seq<u8>, off: int) -> Seq<u8> {
    let klen = entry_key_len(data, off);
    let vlen = entry_value_len(data, off);
    data.subrange(off + 4 + klen, off + 4 + klen + vlen)
}

/// One past the last byte of the entry starting at byte `off` of `data`.
pub open spec fn entry_end(data: Seq<u8>, off: int) -> int {
    off + 4 + entry_key_len(data, off) + entry_value_len(data, off)
}

/// The `i`-th entry lies within `data` and runs exactly up to the next
/// entry's offset (or to the end of `data` for the last entry).
pub open spec fn entry_wf_at(data: Seq<u8>, offsets: Seq<u16>, i: int) -> bool {
    let off = offsets[i] as int;
    &&& off + 2 <= data.len()
    &&& off + 4 + entry_key_len(data, off) <= data.len()
    &&& entry_end(data, off) <= data.len()
    &&& entry_end(data, off) == if i + 1 < offsets.len() {
        offsets[i + 1] as int
    } else {
        data.len() as int
    }
}

/// Structural well-formedness of a block: at least one entry, the first
/// entry starts at byte 0, and the entries tile the data section exactly.
pub open spec fn wf_block(bv: BlockView) -> bool {
    &&& 1 <= bv.offsets.len() <= 0xffff
    &&& bv.offsets[0] == 0
    &&& forall|i: int|
        0 <= i < bv.offsets.len() ==> #[trigger] entry_wf_at(bv.data, bv.offsets, i)
}

/// The decoded entries of a block, in offset order.
pub open spec fn block_entries(bv: BlockView) -> Seq<(Seq<u8>, Seq<u8>)> {
    Seq::new(
        bv.offsets.len(),
        |i: int|
            (
                entry_key(bv.data, bv.offsets[i] as int),
                entry_value(bv.data, bv.offsets[i] as int),
            ),
    )
}

/// The big-endian bytes of an offset vector, in order.
pub open spec fn spec_offsets_to_bytes(offsets: Seq<u16>) -> Seq<u8>
    decreases offsets.len(),
{
    if offsets.len() == 0 {
        Seq::empty()
    } else {
        spec_offsets_to_bytes(offsets.drop_last()) + spec_u16_to_be_bytes(offsets.last())
    }
}

pub proof fn lemma_offsets_to_bytes_len(offsets: Seq<u16>)
    ensures
        spec_offsets_to_bytes(offsets).len() == 2 * offsets.len(),
    decreases offsets.len(),
{
    if offsets.len() > 0 {
        lemma_offsets_to_bytes_len(offsets.drop_last());
    }
}

pub proof fn lemma_offsets_to_bytes_index(offsets: Seq<u16>, i: int)
    requires
        0 <= i < offsets.len(),
    ensures
        spec_offsets_to_bytes(offsets).subrange(2 * i, 2 * i + 2) == spec_u16_to_be_bytes(
            offsets[i],
        ),
    decreases offsets.len(),
{
    lemma_offsets_to_bytes_len(offsets);
    lemma_offsets_to_bytes_len(offsets.drop_last());
    if i == offsets.len() - 1 {
        assert(spec_offsets_to_bytes(offsets).subrange(2 * i, 2 * i + 2) =~= spec_u16_to_be_bytes(
            offsets[i],
        ));
    } else {
        lemma_offsets_to_bytes_index(offsets.drop_last(), i);
        assert(spec_offsets_to_bytes(offsets).subrange(2 * i, 2 * i + 2)
            =~= spec_offsets_to_bytes(offsets.drop_last()).subrange(2 * i, 2 * i + 2));
    }
}

/// The integrity checksum of a block: the fixed-seed fingerprint of the data
/// bytes followed by the big-endian offset bytes.
pub open spec fn spec_block_checksum(bv: BlockView) -> u64 {
    spec_fingerprint64(bv.data + spec_offsets_to_bytes(bv.offsets))
}

/// The encoded image of a block.
pub open spec fn spec_block_encode(bv: BlockView) -> Seq<u8> {
    bv.data + spec_offsets_to_bytes(bv.offsets) + spec_u16_to_be_bytes(bv.offsets.len() as u16)
        + spec_u64_to_be_bytes(spec_block_checksum(bv))
}

/// Decoding an encoded image: `Some` exactly when the image is structurally
/// sound and its stored checksum matches the recomputed one.
pub open spec fn spec_block_decode(s: Seq<u8>) -> Option<BlockView> {
    let len = s.len() as int;
    if len < 10 {
        None
    } else {
        let n = spec_u16_from_be_bytes(s.subrange(len - 10, len - 8)) as int;
        let stored = spec_u64_from_be_bytes(s.subrange(len - 8, len));
        if n < 1 || len - 10 < 2 * n {
            None
        } else {
            let dl = len - 10 - 2 * n;
            let bv = BlockView {
                data: s.subrange(0, dl),
                offsets: Seq::new(
                    n as nat,
                    |i: int| spec_u16_from_be_bytes(s.subrange(dl + 2 * i, dl + 2 * i + 2)),
                ),
            };
            if stored == spec_block_checksum(bv) && wf_block(bv) {
                Some(bv)
            } else {
                None
            }
        }
    }
}

/// A block: a collection of sorted key-value pairs, the smallest unit of
/// read and caching.
pub struct Block {
    data: Vec<u8>,
    offsets: Vec<u16>,
}

impl View for Block {
    type V = BlockView;

    closed spec fn view(&self) -> BlockView {
        BlockView { data: self.data@, offsets: self.offsets@ }
    }
}

/// Appends the big-endian bytes of every offset.
fn append_offsets(buf: &mut Vec<u8>, offsets: &Vec<u16>)
    ensures
        final(buf)@ == old(buf)@ + spec_offsets_to_bytes(offsets@),
{
    let mut i: usize = 0;
    proof {
        assert(buf@ =~= old(buf)@ + spec_offsets_to_bytes(offsets@.subrange(0, 0)));
    }
    while i < offsets.len()
        invariant
            i <= offsets@.len(),
            buf@ == old(buf)@ + spec_offsets_to_bytes(offsets@.subrange(0, i as int)),
        decreases offsets@.len() - i,
    {
        push_u16_be(buf, offsets[i]);
        proof {
            let pre = offsets@.subrange(0, i as int);
            let post = offsets@.subrange(0, i as int + 1);
            assert(post.drop_last() =~= pre);
            assert(post.last() == offsets@[i as int]);
            assert(spec_offsets_to_bytes(post) == spec_offsets_to_bytes(pre)
                + spec_u16_to_be_bytes(offsets@[i as int]));
            assert(buf@ =~= old(buf)@ + spec_offsets_to_bytes(post));
        }
        i += 1;
    }
    proof {
        assert(offsets@.subrange(0, offsets@.len() as int) =~= offsets@);
    }
}

/// Checks the structural well-formedness of a parsed (data, offsets) pair.
fn check_block_wf(data: &Vec<u8>, offsets: &Vec<u16>) -> (r: bool)
    ensures
        r == wf_block(BlockView { data: data@, offsets: offsets@ }),
{
    let ghost bv = BlockView { data: data@, offsets: offsets@ };
    let n = offsets.len();
    if n < 1 || n > 0xffff {
        return false;
    }
    if offsets[0] != 0 {
        return false;
    }
    let dlen = data.len();
    let mut i: usize = 0;
    while i < n
        invariant
            i <= n,
            n == offsets@.len(),
            1 <= n <= 0xffff,
            offsets@[0] == 0,
            dlen == data@.len(),
            bv == (BlockView { data: data@, offsets: offsets@ }),
            forall|j: int| 0 <= j < i as int ==> #[trigger] entry_wf_at(bv.data, bv.offsets, j),
        decreases n - i,
    {
        let off = offsets[i] as usize;
        if off + 2 > dlen {
            assert(!entry_wf_at(bv.data, bv.offsets, i as int));
            assert(!wf_block(bv));
            return false;
        }
        let klen = read_u16_be(data.as_slice(), off) as usize;
        assert(klen == entry_key_len(bv.data, off as int));
        if off + 4 + klen > dlen {
            assert(!entry_wf_at(bv.data, bv.offsets, i as int));
            assert(!wf_block(bv));
            return false;
        }
        let vlen = read_u16_be(data.as_slice(), off + 2 + klen) as usize;
        assert(vlen == entry_value_len(bv.data, off as int));
        let end = off + 4 + klen + vlen;
        if end > dlen {
            assert(!entry_wf_at(bv.data, bv.offsets, i as int));
            assert(!wf_block(bv));
            return false;
        }
        let next = if i + 1 < n {
            offsets[i + 1] as usize
        } else {
            dlen
        };
        if end != next {
            assert(!entry_wf_at(bv.data, bv.offsets, i as int));
            assert(!wf_block(bv));
            return false;
        }
        assert(entry_wf_at(bv.data, bv.offsets, i as int));
        i += 1;
    }
    assert(wf_block(bv));
    true
}

impl Block {
    /// Encodes the block into its on-disk image: data, big-endian offsets,
    /// the entry count, and the checksum.
    pub fn encode(&self) -> (r: Vec<u8>)
        requires
            wf_block(self@),
        ensures
            r@ == spec_block_encode(self@),
    {
        let mut buf = copy_range(self.data.as_slice(), 0, self.data.len());
        proof {
            assert(buf@ =~= self.data@);
        }
        append_offsets(&mut buf, &self.offsets);
        let checksum = fingerprint64(buf.as_slice());
        assert(checksum == spec_block_checksum(self@));
        let n = self.offsets.len() as u16;
        push_u16_be(&mut buf, n);
        push_u64_be(&mut buf, checksum);
        proof {
            assert(buf@ =~= spec_block_encode(self@));
        }
        buf
    }

    /// Decodes a block image, recomputing and verifying the checksum and the
    /// structural invariants. Fails with `CorruptBlock` exactly when the
    /// image does not decode.
    pub fn decode(bytes: &[u8]) -> (r: Result<Block, LsmError>)
        ensures
            match spec_block_decode(bytes@) {
                Some(bv) => r is Ok && r->Ok_0@ == bv,
                None => r == Err::<Block, LsmError>(LsmError::CorruptBlock),
            },
    {
        let len = bytes.len();
        if len < 10 {
            return Err(LsmError::CorruptBlock);
        }
        let n = read_u16_be(bytes, len - 10) as usize;
        let stored = read_u64_be(bytes, len - 8);
        if n < 1 || len - 10 < 2 * n {
            return Err(LsmError::CorruptBlock);
        }
        let data_len = len - 10 - 2 * n;
        let ghost dl = data_len as int;
        let mut offsets: Vec<u16> = Vec::new();
        let mut i: usize = 0;
        while i < n
            invariant
                i <= n,
                n >= 1,
                len == bytes@.len(),
                data_len == len - 10 - 2 * n,
                dl == data_len as int,
                offsets@.len() == i as int,
                forall|j: int|
                    0 <= j < i as int ==> offsets@[j] == spec_u16_from_be_bytes(
                        bytes@.subrange(dl + 2 * j, dl + 2 * j + 2),
                    ),
            decreases n - i,
        {
            let o = read_u16_be(bytes, data_len + 2 * i);
            offsets.push(o);
            i += 1;
        }
        proof {
            assert(offsets@ =~= Seq::new(
                n as nat,
                |j: int| spec_u16_from_be_bytes(bytes@.subrange(dl + 2 * j, dl + 2 * j + 2)),
            ));
        }
        let data = copy_range(bytes, 0, data_len);
        let ghost bv = BlockView { data: data@, offsets: offsets@ };
        let mut cbuf = copy_range(bytes, 0, data_len);
        append_offsets(&mut cbuf, &offsets);
        let expected = fingerprint64(cbuf.as_slice());
        assert(expected == spec_block_checksum(bv));
        if stored != expected {
            return Err(LsmError::CorruptBlock);
        }
        if !check_block_wf(&data, &offsets) {
            return Err(LsmError::CorruptBlock);
        }
        let decoded = Block { data, offsets };
        assert(decoded@ == bv);
        Ok(decoded)
    }

    /// The number of entries in the block.
    pub fn num_entries(&self) -> (n: usize)
        ensures
            n == self@.offsets.len(),
    {
        self.offsets.len()
    }

    /// Assembles a block from its raw parts.
    pub(crate) fn from_parts(data: Vec<u8>, offsets: Vec<u16>) -> (r: Block)
        ensures
            r@ == (BlockView { data: data@, offsets: offsets@ }),
    {
        Block { data, offsets }
    }

    /// The raw data section.
    pub(crate) fn data_slice(&self) -> (r: &[u8])
        ensures
            r@ == self@.data,
    {
        self.data.as_slice()
    }

    /// The byte position of entry `i` within the data section.
    pub(crate) fn offset_at(&self, i: usize) -> (r: u16)
        requires
            i < self@.offsets.len(),
        ensures
            r == self@.offsets[i as int],
    {
        self.offsets[i]
    }
}

/// Law: corrupting the stored checksum of an encoded block — any change to
/// its trailing eight-byte field, in particular any single-bit flip there —
/// makes decoding fail. A flip below that field changes what the recomputed
/// fingerprint or the structural checks see instead, which the checksum
/// comparison catches with the strength of the fingerprint.
pub proof fn lemma_block_checksum_tamper_detected(bv: BlockView, s2: Seq<u8>)
    requires
        wf_block(bv),
        s2.len() == spec_block_encode(bv).len(),
        s2.subrange(0, s2.len() - 8) == spec_block_encode(bv).subrange(
            0,
            spec_block_encode(bv).len() - 8,
        ),
        s2 != spec_block_encode(bv),
    ensures
        spec_block_decode(s2) is None,
{
    let s = spec_block_encode(bv);
    let n = bv.offsets.len() as int;
    let dl = bv.data.len() as int;
    lemma_offsets_to_bytes_len(bv.offsets);
    let len = s.len() as int;
    assert(len == dl + 2 * n + 10);
    let prefix = s.subrange(0, len - 8);
    assert(s.subrange(0, prefix.len() as int) =~= prefix);

    // The two images agree on every window below the checksum field.
    assert forall|a: int, b: int| 0 <= a <= b <= len - 8 implies s2.subrange(a, b) == s.subrange(
        a,
        b,
    ) by {
        crate::bytes_util::lemma_subrange_of_eq(s2, 0, prefix, a, b);
        crate::bytes_util::lemma_subrange_of_eq(s, 0, prefix, a, b);
    }

    // The tampered image parses to the same count, data and offsets.
    assert(s.subrange(len - 10, len - 8) =~= spec_u16_to_be_bytes(bv.offsets.len() as u16));
    lemma_u16_be_round_trip(bv.offsets.len() as u16);
    assert(s2.subrange(len - 10, len - 8) == s.subrange(len - 10, len - 8));
    assert(spec_u16_from_be_bytes(s2.subrange(len - 10, len - 8)) as int == n);
    assert(s.subrange(0, dl) =~= bv.data);
    assert(s2.subrange(0, dl) == s.subrange(0, dl));
    let parsed = Seq::new(
        n as nat,
        |i: int| spec_u16_from_be_bytes(s2.subrange(dl + 2 * i, dl + 2 * i + 2)),
    );
    assert forall|i: int| 0 <= i < n implies parsed[i] == bv.offsets[i] by {
        lemma_offsets_to_bytes_index(bv.offsets, i);
        assert(s.subrange(dl + 2 * i, dl + 2 * i + 2) =~= spec_offsets_to_bytes(
            bv.offsets,
        ).subrange(2 * i, 2 * i + 2));
        assert(s2.subrange(dl + 2 * i, dl + 2 * i + 2) == s.subrange(dl + 2 * i, dl + 2 * i + 2));
        lemma_u16_be_round_trip(bv.offsets[i]);
    }
    assert(parsed =~= bv.offsets);
    let bv2 = BlockView { data: s2.subrange(0, dl), offsets: parsed };
    assert(bv2 =~= bv);

    // The stored checksum differs from the recomputed one: the original's
    // matched, and a changed eight-byte field reads as a changed value.
    assert(s.subrange(len - 8, len) =~= spec_u64_to_be_bytes(spec_block_checksum(bv)));
    lemma_u64_be_round_trip(spec_block_checksum(bv));
    assert(s2.subrange(len - 8, len) != s.subrange(len - 8, len)) by {
        if s2.subrange(len - 8, len) == s.subrange(len - 8, len) {
            assert forall|i: int| 0 <= i < len implies s2[i] == s[i] by {
                if i < len - 8 {
                    assert(s2.subrange(0, len - 8)[i] == s.subrange(0, len - 8)[i]);
                } else {
                    assert(s2.subrange(len - 8, len)[i - (len - 8)] == s.subrange(
                        len - 8,
                        len,
                    )[i - (len - 8)]);
                }
            }
            assert(s2 =~= s);
        }
    }
    assert(spec_u64_from_be_bytes(s2.subrange(len - 8, len)) != spec_block_checksum(bv)) by {
        if spec_u64_from_be_bytes(s2.subrange(len - 8, len)) == spec_block_checksum(bv) {
            crate::endian::lemma_u64_be_bytes_injective(
                s2.subrange(len - 8, len),
                s.subrange(len - 8, len),
            );
        }
    }
    assert(spec_block_checksum(bv2) == spec_block_checksum(bv));
}

/// Law: encoding a well-formed block and decoding the image returns the
/// block unchanged, bytewise on data and offsets.
pub proof fn lemma_block_round_trip(bv: BlockView)
    requires
        wf_block(bv),
    ensures
        spec_block_decode(spec_block_encode(bv)) == Some(bv),
{
    let s = spec_block_encode(bv);
    let n = bv.offsets.len() as int;
    let dl = bv.data.len() as int;
    lemma_offsets_to_bytes_len(bv.offsets);
    assert(s.len() == dl + 2 * n + 10);
    let len = s.len() as int;

    // The stored entry count reads back as n.
    assert(s.subrange(len - 10, len - 8) =~= spec_u16_to_be_bytes(bv.offsets.len() as u16));
    lemma_u16_be_round_trip(bv.offsets.len() as u16);

    // The stored checksum reads back as the block checksum.
    assert(s.subrange(len - 8, len) =~= spec_u64_to_be_bytes(spec_block_checksum(bv)));
    lemma_u64_be_round_trip(spec_block_checksum(bv));

    // The data section reads back as the data.
    assert(s.subrange(0, dl) =~= bv.data);

    // Each stored offset reads back as the offset.
    let parsed = Seq::new(
        n as nat,
        |i: int| spec_u16_from_be_bytes(s.subrange(dl + 2 * i, dl + 2 * i + 2)),
    );
    assert forall|i: int| 0 <= i < n implies parsed[i] == bv.offsets[i] by {
        lemma_offsets_to_bytes_index(bv.offsets, i);
        assert(s.subrange(dl + 2 * i, dl + 2 * i + 2) =~= spec_offsets_to_bytes(
            bv.offsets,
        ).subrange(2 * i, 2 * i + 2));
        lemma_u16_be_round_trip(bv.offsets[i]);
    }
    assert(parsed =~= bv.offsets);
    let bv2 = BlockView { data: s.subrange(0, dl), offsets: parsed };
    assert(bv2 =~= bv);
}

} // verus!

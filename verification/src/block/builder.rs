//! Builds a block by packing sorted key-value entries into a fixed-capacity
//! chunk.

use vstd::prelude::*;

use crate::block::{
    block_entries, entry_end, entry_key, entry_key_len, entry_value, entry_value_len,
    entry_wf_at, spec_block_encode, wf_block, Block, BlockView,
};
use crate::block::lemma_offsets_to_bytes_len;
use crate::bytes_util::append_bytes;
use crate::endian::{lemma_u16_be_round_trip, push_u16_be, spec_u16_to_be_bytes};
use crate::keys::{entries_keys_nonempty, entries_sorted, lex_lt, lemma_lex_lt_transitive};

verus! {

/// The physical encoding of one entry: `u16 key_len | key | u16 value_len |
/// value`, big-endian.
pub open spec fn spec_entry_bytes(key: Seq<u8>, value: Seq<u8>) -> Seq<u8> {
    spec_u16_to_be_bytes(key.len() as u16) + key + spec_u16_to_be_bytes(value.len() as u16)
        + value
}

/// Appending one encoded entry to a well-formed (or empty) block keeps it
/// well-formed and appends the entry to its decoded contents.
proof fn lemma_block_append_entry(bv: BlockView, key: Seq<u8>, value: Seq<u8>)
    requires
        bv.offsets.len() == 0 ==> bv.data.len() == 0,
        bv.offsets.len() > 0 ==> wf_block(bv),
        bv.offsets.len() + 1 <= 0xffff,
        bv.data.len() <= 0xffff,
        key.len() <= 0xffff,
        value.len() <= 0xffff,
    ensures
        ({
            let bv2 = BlockView {
                data: bv.data + spec_entry_bytes(key, value),
                offsets: bv.offsets.push(bv.data.len() as u16),
            };
            &&& wf_block(bv2)
            &&& block_entries(bv2) == block_entries(bv).push((key, value))
        }),
{
    let bv2 = BlockView {
        data: bv.data + spec_entry_bytes(key, value),
        offsets: bv.offsets.push(bv.data.len() as u16),
    };
    let n = bv.offsets.len() as int;
    let dl = bv.data.len() as int;
    lemma_u16_be_round_trip(key.len() as u16);
    lemma_u16_be_round_trip(value.len() as u16);

    // The appended entry parses back as (key, value) and ends at the new end
    // of the data section.
    assert(bv2.data.subrange(dl, dl + 2) =~= spec_u16_to_be_bytes(key.len() as u16));
    assert(entry_key_len(bv2.data, dl) == key.len());
    assert(bv2.data.subrange(dl + 2, dl + 2 + key.len() as int) =~= key);
    assert(entry_key(bv2.data, dl) == key);
    assert(bv2.data.subrange(dl + 2 + key.len() as int, dl + 4 + key.len() as int)
        =~= spec_u16_to_be_bytes(value.len() as u16));
    assert(entry_value_len(bv2.data, dl) == value.len());
    assert(bv2.data.subrange(
        dl + 4 + key.len() as int,
        dl + 4 + key.len() as int + value.len() as int,
    ) =~= value);
    assert(entry_value(bv2.data, dl) == value);
    assert(entry_end(bv2.data, dl) == bv2.data.len() as int);
    assert(entry_wf_at(bv2.data, bv2.offsets, n));

    // Entries already in the block are untouched: they parse from a prefix of
    // the data section that did not change.
    assert forall|i: int| 0 <= i < n implies #[trigger] entry_wf_at(bv2.data, bv2.offsets, i)
        && entry_key(bv2.data, bv2.offsets[i] as int) == entry_key(bv.data, bv.offsets[i] as int)
        && entry_value(bv2.data, bv2.offsets[i] as int) == entry_value(
        bv.data,
        bv.offsets[i] as int,
    ) by {
        assert(entry_wf_at(bv.data, bv.offsets, i));
        let off = bv.offsets[i] as int;
        assert(bv2.data.subrange(off, off + 2) =~= bv.data.subrange(off, off + 2));
        assert(entry_key_len(bv2.data, off) == entry_key_len(bv.data, off));
        let klen = entry_key_len(bv.data, off);
        assert(bv2.data.subrange(off + 2, off + 2 + klen) =~= bv.data.subrange(
            off + 2,
            off + 2 + klen,
        ));
        assert(bv2.data.subrange(off + 2 + klen, off + 4 + klen) =~= bv.data.subrange(
            off + 2 + klen,
            off + 4 + klen,
        ));
        assert(entry_value_len(bv2.data, off) == entry_value_len(bv.data, off));
        let vlen = entry_value_len(bv.data, off);
        assert(bv2.data.subrange(off + 4 + klen, off + 4 + klen + vlen) =~= bv.data.subrange(
            off + 4 + klen,
            off + 4 + klen + vlen,
        ));
    }
    assert(wf_block(bv2));
    assert forall|i: int| 0 <= i < n + 1 implies block_entries(bv2)[i] == block_entries(
        bv,
    ).push((key, value))[i] by {
        if i < n {
            assert(entry_wf_at(bv2.data, bv2.offsets, i));
        }
    }
    assert(block_entries(bv2) =~= block_entries(bv).push((key, value)));
}

/// Builds a block. Entries are added in strictly increasing key order; the
/// first entry always fits, and later entries are rejected once the block
/// would exceed its target size.
pub struct BlockBuilder {
    // All the key-value pairs in the block
    data: Vec<u8>,
    // The offsets of each key-value pair in the block
    offsets: Vec<u16>,
    // The target block size
    block_size: usize,
}

impl BlockBuilder {
    /// The data and offsets accumulated so far, as a block.
    pub closed spec fn contents(&self) -> BlockView {
        BlockView { data: self.data@, offsets: self.offsets@ }
    }

    /// The target block size the builder was created with.
    pub closed spec fn spec_block_size(&self) -> int {
        self.block_size as int
    }

    /// The entries added so far.
    pub open spec fn entries(&self) -> Seq<(Seq<u8>, Seq<u8>)> {
        block_entries(self.contents())
    }

    /// The size of the encoded image, checksum excluded: the data section,
    /// the offset section, and the entry-count field.
    pub open spec fn spec_estimated_size(&self) -> int {
        self.contents().data.len() as int + 2 * self.contents().offsets.len() as int + 2
    }

    /// Builder invariant: the accumulated parts form a well-formed block of
    /// non-empty, strictly increasing keys, and any block of two or more
    /// entries respects the target size.
    pub open spec fn wf(&self) -> bool {
        &&& self.spec_block_size() <= 0xffff
        &&& self.contents().offsets.len() == 0 ==> self.contents().data.len() == 0
        &&& self.contents().offsets.len() > 0 ==> wf_block(self.contents())
        &&& self.contents().offsets.len() >= 2 ==> self.spec_estimated_size()
            <= self.spec_block_size()
        &&& entries_sorted(self.entries())
        &&& entries_keys_nonempty(self.entries())
    }

    /// Creates a new block builder for the given target size. The target
    /// must fit the 16-bit offsets of the block format.
    pub fn new(block_size: usize) -> (r: BlockBuilder)
        requires
            block_size <= 0xffff,
        ensures
            r.wf(),
            r.entries() == Seq::<(Seq<u8>, Seq<u8>)>::empty(),
            r.spec_block_size() == block_size,
    {
        let r = BlockBuilder { data: Vec::new(), offsets: Vec::new(), block_size };
        proof {
            assert(r.entries() =~= Seq::<(Seq<u8>, Seq<u8>)>::empty());
        }
        r
    }

    /// The size of the encoded image so far, checksum excluded.
    fn estimated_size(&self) -> (r: usize)
        requires
            self.wf(),
        ensures
            r == self.spec_estimated_size(),
    {
        proof {
            lemma_offsets_to_bytes_len(self.contents().offsets);
            if self.offsets.len() > 0 {
                assert(wf_block(self.contents()));
                assert(entry_wf_at(self.contents().data, self.contents().offsets, (
                self.contents().offsets.len() - 1) as int));
            }
        }
        self.data.len() + self.offsets.len() * 2 + 2
    }

    /// True when no entry has been added yet.
    pub fn is_empty(&self) -> (r: bool)
        ensures
            r == (self.entries().len() == 0),
    {
        self.offsets.is_empty()
    }

    /// Adds a key-value pair to the block. Returns false, leaving the block
    /// unchanged, exactly when the block is non-empty and the entry would
    /// push the estimated size past the target; the first entry always
    /// succeeds. Keys are non-empty and strictly increasing.
    #[must_use]
    pub fn add(&mut self, key: &[u8], value: &[u8]) -> (r: bool)
        requires
            old(self).wf(),
            key@.len() > 0,
            key@.len() <= 0xffff,
            value@.len() <= 0xffff,
            old(self).entries().len() > 0 ==> lex_lt(old(self).entries().last().0, key@),
        ensures
            final(self).wf(),
            final(self).spec_block_size() == old(self).spec_block_size(),
            r == (old(self).entries().len() == 0 || old(self).spec_estimated_size() + key@.len()
                + value@.len() + 6 <= old(self).spec_block_size()),
            r ==> final(self).entries() == old(self).entries().push((key@, value@)),
            r ==> final(self).spec_estimated_size() == old(self).spec_estimated_size()
                + key@.len() + value@.len() + 6,
            !r ==> *final(self) == *old(self),
    {
        proof {
            // The accumulated data section is bounded: a block of two or more
            // entries respects the target, and a single entry is at most two
            // 16-bit lengths plus their headers.
            if self.contents().offsets.len() == 1 {
                assert(entry_wf_at(self.contents().data, self.contents().offsets, 0));
                assert(self.contents().data.len() <= 4 + 0xffff + 0xffff);
            }
        }
        let new_size = self.estimated_size() + key.len() + value.len() + 3 * 2;
        if new_size > self.block_size && !self.is_empty() {
            return false;
        }
        let ghost bv = self.contents();
        proof {
            if self.offsets.len() > 0 {
                // A non-empty block that accepts an entry is within the
                // target, so its data section fits a 16-bit offset.
                assert(self.spec_estimated_size() <= self.spec_block_size());
            }
            lemma_block_append_entry(bv, key@, value@);
        }
        self.offsets.push(self.data.len() as u16);
        push_u16_be(&mut self.data, key.len() as u16);
        append_bytes(&mut self.data, key);
        push_u16_be(&mut self.data, value.len() as u16);
        append_bytes(&mut self.data, value);
        proof {
            assert(self.contents().data =~= bv.data + spec_entry_bytes(key@, value@));
            assert(self.contents().offsets =~= bv.offsets.push(bv.data.len() as u16));
            assert(self.contents() == (BlockView {
                data: bv.data + spec_entry_bytes(key@, value@),
                offsets: bv.offsets.push(bv.data.len() as u16),
            }));
            let old_entries = old(self).entries();
            let entries = self.entries();
            assert(entries == old_entries.push((key@, value@)));
            assert forall|i: int, j: int| 0 <= i < j < entries.len() implies lex_lt(
                #[trigger] entries[i].0,
                #[trigger] entries[j].0,
            ) by {
                if j < entries.len() - 1 {
                    assert(lex_lt(old_entries[i].0, old_entries[j].0));
                } else {
                    assert(entries[j].0 == key@);
                    if i < entries.len() - 2 {
                        assert(lex_lt(old_entries[i].0, old_entries.last().0));
                        lemma_lex_lt_transitive(old_entries[i].0, old_entries.last().0, key@);
                    }
                }
            }
            assert(entries_keys_nonempty(entries));
        }
        true
    }

    /// Finalizes the block. The block must hold at least one entry.
    pub fn build(self) -> (r: Block)
        requires
            self.wf(),
            self.entries().len() > 0,
        ensures
            r@ == self.contents(),
            wf_block(r@),
            entries_sorted(block_entries(r@)),
            entries_keys_nonempty(block_entries(r@)),
    {
        Block::from_parts(self.data, self.offsets)
    }
}

/// Law: every block built from two or more entries has an encoded image no
/// larger than the target size plus the eight checksum bytes that ride on
/// top of the size budget. A block holding a single (oversized) entry is
/// exempt: the first add always succeeds.
pub proof fn lemma_built_block_within_target(b: BlockBuilder)
    requires
        b.wf(),
        b.entries().len() >= 2,
    ensures
        spec_block_encode(b.contents()).len() <= b.spec_block_size() + 8,
{
    lemma_offsets_to_bytes_len(b.contents().offsets);
}

} // verus!

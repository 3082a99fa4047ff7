//! Linear and binary-search positioning over a decoded block.

use std::sync::Arc;

use vstd::prelude::*;

use crate::block::{block_entries, entry_wf_at, wf_block, Block, BlockView};
use crate::bytes_util::copy_range;
use crate::endian::read_u16_be;
use crate::error::LsmError;
use crate::keys::{
    compare_keys, entries_keys_nonempty, entries_sorted, lemma_lex_trichotomy,
    lemma_lex_lt_transitive, lex_le, lex_lt, KeyOrdering,
};

verus! {

/// Iterates over one block. The iterator borrows shared ownership of the
/// block; an empty current key marks an invalid (exhausted) iterator.
pub struct BlockIterator {
    /// The internal block, wrapped by an `Arc`
    block: Arc<Block>,
    /// The current key; empty represents an invalid iterator
    key: Vec<u8>,
    /// The corresponding value; can be empty
    value: Vec<u8>,
    /// Current index of the key-value pair, in `[0, num_of_elements)`
    idx: usize,
}

impl BlockIterator {
    /// The block being iterated.
    pub closed spec fn blk(&self) -> BlockView {
        self.block@
    }

    /// The entries of the block being iterated.
    pub open spec fn entries(&self) -> Seq<(Seq<u8>, Seq<u8>)> {
        block_entries(self.blk())
    }

    /// The current position.
    pub closed spec fn spec_idx(&self) -> int {
        self.idx as int
    }

    pub closed spec fn spec_key(&self) -> Seq<u8> {
        self.key@
    }

    pub closed spec fn spec_value(&self) -> Seq<u8> {
        self.value@
    }

    /// The iterator exposes an entry.
    pub open spec fn spec_valid(&self) -> bool {
        self.spec_key().len() > 0
    }

    /// The block is structurally sound with non-empty, strictly increasing
    /// keys — what every producer of blocks guarantees.
    pub open spec fn block_wf(&self) -> bool {
        &&& wf_block(self.blk())
        &&& entries_sorted(self.entries())
        &&& entries_keys_nonempty(self.entries())
    }

    /// Iterator invariant: either positioned on entry `idx`, exposing its
    /// key and value, or past the end with an empty key.
    pub open spec fn inv(&self) -> bool {
        &&& self.block_wf()
        &&& if self.spec_valid() {
            &&& 0 <= self.spec_idx() < self.entries().len()
            &&& self.spec_key() == self.entries()[self.spec_idx()].0
            &&& self.spec_value() == self.entries()[self.spec_idx()].1
        } else {
            self.spec_idx() >= self.entries().len()
        }
    }

    fn new(block: Arc<Block>) -> (r: BlockIterator)
        requires
            wf_block(block@),
            entries_sorted(block_entries(block@)),
            entries_keys_nonempty(block_entries(block@)),
        ensures
            r.inv(),
            !r.spec_valid(),
            r.blk() == block@,
    {
        BlockIterator { block, key: Vec::new(), value: Vec::new(), idx: usize::MAX }
    }

    /// Creates a block iterator positioned on the first entry.
    pub fn create_and_seek_to_first(block: Arc<Block>) -> (r: BlockIterator)
        requires
            wf_block(block@),
            entries_sorted(block_entries(block@)),
            entries_keys_nonempty(block_entries(block@)),
        ensures
            r.inv(),
            r.blk() == block@,
            r.spec_valid(),
            r.spec_idx() == 0,
            r.spec_key() == block_entries(block@)[0].0,
            r.spec_value() == block_entries(block@)[0].1,
    {
        let mut iter = BlockIterator::new(block);
        iter.seek_to_first();
        iter
    }

    /// Creates a block iterator positioned on the first entry whose key is
    /// `>= key`.
    pub fn create_and_seek_to_key(block: Arc<Block>, key: &[u8]) -> (r: BlockIterator)
        requires
            wf_block(block@),
            entries_sorted(block_entries(block@)),
            entries_keys_nonempty(block_entries(block@)),
        ensures
            r.inv(),
            r.blk() == block@,
            r.spec_valid() <==> exists|i: int|
                0 <= i < block_entries(block@).len() && lex_le(
                    key@,
                    block_entries(block@)[i].0,
                ),
            r.spec_valid() ==> lex_le(key@, block_entries(block@)[r.spec_idx()].0)
                && (forall|j: int|
                0 <= j < r.spec_idx() ==> lex_lt(#[trigger] block_entries(block@)[j].0, key@)),
    {
        let mut iter = BlockIterator::new(block);
        iter.seek_to_key(key);
        iter
    }

    /// Returns the key of the current entry. It aliases the iterator's
    /// internal buffer; callers that retain it past the next mutation copy it.
    pub fn key(&self) -> (k: &[u8])
        requires
            self.inv(),
            self.spec_valid(),
        ensures
            k@ == self.entries()[self.spec_idx()].0,
    {
        self.key.as_slice()
    }

    /// Returns the value of the current entry.
    pub fn value(&self) -> (v: &[u8])
        requires
            self.inv(),
            self.spec_valid(),
        ensures
            v@ == self.entries()[self.spec_idx()].1,
    {
        self.value.as_slice()
    }

    /// Returns true if the iterator is positioned on an entry.
    pub fn is_valid(&self) -> (r: bool)
        ensures
            r == self.spec_valid(),
    {
        self.key.len() != 0
    }

    /// Seeks to the first entry of the block.
    pub fn seek_to_first(&mut self)
        requires
            old(self).block_wf(),
        ensures
            final(self).inv(),
            final(self).blk() == old(self).blk(),
            final(self).spec_valid(),
            final(self).spec_idx() == 0,
            final(self).spec_key() == final(self).entries()[0].0,
            final(self).spec_value() == final(self).entries()[0].1,
    {
        self.seek_to_idx(0);
    }

    /// Moves to the next entry; invalidates at the end of the block.
    pub fn next(&mut self)
        requires
            old(self).inv(),
            old(self).spec_valid(),
        ensures
            final(self).inv(),
            final(self).blk() == old(self).blk(),
            final(self).spec_valid() <==> old(self).spec_idx() + 1 < old(self).entries().len(),
            final(self).spec_valid() ==> final(self).spec_idx() == old(self).spec_idx() + 1
                && final(self).spec_key() == final(self).entries()[final(self).spec_idx()].0
                && final(self).spec_value() == final(self).entries()[final(self).spec_idx()].1,
    {
        let i = self.idx + 1;
        self.seek_to_idx(i);
    }

    /// Positions the iterator on entry `idx`, invalidating it when `idx` is
    /// out of range.
    fn seek_to_idx(&mut self, idx: usize)
        requires
            old(self).block_wf(),
        ensures
            final(self).inv(),
            final(self).blk() == old(self).blk(),
            final(self).spec_valid() <==> (idx as int) < old(self).entries().len(),
            final(self).spec_valid() ==> final(self).spec_idx() == idx as int
                && final(self).spec_key() == final(self).entries()[idx as int].0
                && final(self).spec_value() == final(self).entries()[idx as int].1,
    {
        if idx >= self.block.num_entries() {
            self.key.clear();
            self.value.clear();
            self.idx = usize::MAX;
            return;
        }
        self.idx = idx;
        proof {
            assert(entry_wf_at(self.blk().data, self.blk().offsets, idx as int));
        }
        let off = self.block.offset_at(idx) as usize;
        let data = self.block.data_slice();
        let klen = read_u16_be(data, off) as usize;
        let key = copy_range(data, off + 2, off + 2 + klen);
        let vlen = read_u16_be(data, off + 2 + klen) as usize;
        let value = copy_range(data, off + 4 + klen, off + 4 + klen + vlen);
        self.key = key;
        self.value = value;
        proof {
            assert(self.entries()[idx as int].0.len() > 0);
        }
    }

    /// Seeks to the first entry whose key is `>= key`; invalidates the
    /// iterator when every key in the block is smaller.
    pub fn seek_to_key(&mut self, key: &[u8])
        requires
            old(self).inv(),
        ensures
            final(self).inv(),
            final(self).blk() == old(self).blk(),
            final(self).spec_valid() <==> exists|i: int|
                0 <= i < final(self).entries().len() && lex_le(
                    key@,
                    final(self).entries()[i].0,
                ),
            final(self).spec_valid() ==> lex_le(key@, final(self).entries()[final(self).spec_idx()].0)
                && (forall|j: int|
                0 <= j < final(self).spec_idx() ==> lex_lt(
                    #[trigger] final(self).entries()[j].0,
                    key@,
                )),
    {
        let ghost entries = self.entries();
        let ghost n = entries.len() as int;
        if self.is_valid() {
            let cur = self.key.as_slice();
            if matches!(compare_keys(cur, key), KeyOrdering::Equal) {
                proof {
                    let at = self.spec_idx();
                    assert(lex_le(key@, entries[at].0));
                    assert forall|j: int| 0 <= j < at implies lex_lt(
                        #[trigger] entries[j].0,
                        key@,
                    ) by {
                        assert(lex_lt(entries[j].0, entries[at].0));
                    }
                }
                return;
            }
        }
        let count = self.block.num_entries();
        let mut low: usize = 0;
        let mut high: usize = count;
        while low < high
            invariant
                low <= high <= count,
                count == n,
                n == old(self).entries().len(),
                entries == old(self).entries(),
                self.blk() == old(self).blk(),
                self.block_wf(),
                forall|j: int| 0 <= j < low as int ==> lex_lt(#[trigger] entries[j].0, key@),
                forall|j: int| high as int <= j < n ==> lex_lt(key@, #[trigger] entries[j].0),
            decreases high - low,
        {
            let mid = (low + high) / 2;
            self.seek_to_idx(mid);
            let cur = self.key.as_slice();
            match compare_keys(cur, key) {
                KeyOrdering::Less => {
                    proof {
                        assert forall|j: int| 0 <= j < mid as int + 1 implies lex_lt(
                            #[trigger] entries[j].0,
                            key@,
                        ) by {
                            if j < mid as int {
                                assert(lex_lt(entries[j].0, entries[mid as int].0));
                                lemma_lex_lt_transitive(entries[j].0, entries[mid as int].0, key@);
                            }
                        }
                    }
                    low = mid + 1;
                },
                KeyOrdering::Greater => {
                    proof {
                        assert forall|j: int| mid as int <= j < n implies lex_lt(
                            key@,
                            #[trigger] entries[j].0,
                        ) by {
                            if j > mid as int {
                                assert(lex_lt(entries[mid as int].0, entries[j].0));
                                lemma_lex_lt_transitive(key@, entries[mid as int].0, entries[j].0);
                            }
                        }
                    }
                    high = mid;
                },
                KeyOrdering::Equal => {
                    proof {
                        assert(lex_le(key@, entries[mid as int].0));
                        assert forall|j: int| 0 <= j < mid as int implies lex_lt(
                            #[trigger] entries[j].0,
                            key@,
                        ) by {
                            assert(lex_lt(entries[j].0, entries[mid as int].0));
                        }
                    }
                    return;
                },
            }
        }
        self.seek_to_idx(low);
        proof {
            if (low as int) < n {
                assert(lex_le(key@, entries[low as int].0));
            } else {
                assert forall|i: int| 0 <= i < n implies !lex_le(key@, #[trigger] entries[i].0) by {
                    lemma_lex_trichotomy(key@, entries[i].0);
                }
            }
        }
    }
}

} // verus!

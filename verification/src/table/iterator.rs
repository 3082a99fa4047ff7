//! Walks one SST in key order, crossing block boundaries.

use std::sync::Arc;

use vstd::prelude::*;

use crate::block::iterator::BlockIterator;
use crate::block::{block_entries, wf_block};
use crate::error::LsmError;
use crate::keys::{
    entries_keys_nonempty, entries_sorted, lemma_lex_trichotomy, lemma_lex_lt_le_transitive,
    lex_le, lex_lt,
};
use crate::table::{
    lemma_view_entries_prefix, lemma_view_entries_sorted, view_block_at, view_block_ok,
    view_data_wf, view_entries_from, SsTable, SsTableView,
};

verus! {

/// What a position inside a table leaves to yield: the rest of the current
/// block, then all later blocks. An invalid inner iterator means exhaustion.
pub open spec fn remaining_at(v: SsTableView, b: int, it: BlockIterator) -> Seq<
    (Seq<u8>, Seq<u8>),
> {
    if it.spec_valid() {
        block_entries(it.blk()).skip(it.spec_idx()) + view_entries_from(v, b + 1)
    } else {
        Seq::empty()
    }
}

/// An iterator over the contents of an SST, in key order.
pub struct SsTableIterator {
    /// The table, shared with other readers.
    sstable: Arc<SsTable>,
    /// Index of the current block.
    block_idx: usize,
    /// Iterator within the current block.
    block_iter: BlockIterator,
}

impl SsTableIterator {
    /// The table being iterated.
    pub closed spec fn tbl(&self) -> SsTableView {
        self.sstable@
    }

    /// The current block index.
    pub closed spec fn spec_block_idx(&self) -> int {
        self.block_idx as int
    }

    /// The inner block iterator.
    pub closed spec fn inner(&self) -> BlockIterator {
        self.block_iter
    }

    /// The iterator exposes an entry.
    pub open spec fn spec_valid(&self) -> bool {
        self.inner().spec_valid()
    }

    /// The entries not yet consumed, current first.
    pub open spec fn remaining(&self) -> Seq<(Seq<u8>, Seq<u8>)> {
        remaining_at(self.tbl(), self.spec_block_idx(), self.inner())
    }

    /// Iterator invariant: the table is sound, the inner iterator walks the
    /// current block, and exhaustion only happens on the last block.
    pub open spec fn inv(&self) -> bool {
        &&& view_data_wf(self.tbl())
        &&& self.inner().inv()
        &&& 0 <= self.spec_block_idx() < self.tbl().metas.len()
        &&& self.inner().blk() == view_block_at(self.tbl(), self.spec_block_idx())->Some_0
        &&& !self.inner().spec_valid() ==> self.spec_block_idx() == self.tbl().metas.len() - 1
    }

    /// Creates an iterator positioned on the first entry of the table.
    pub fn create_and_seek_to_first(table: Arc<SsTable>) -> (r: Result<
        SsTableIterator,
        LsmError,
    >)
        requires
            view_data_wf(table@),
        ensures
            r is Ok,
            r->Ok_0.inv(),
            r->Ok_0.tbl() == table@,
            r->Ok_0.remaining() == view_entries_from(table@, 0),
    {
        proof {
            assert(view_block_ok(table@, 0));
        }
        let block = match table.read_block(0) {
            Ok(b) => b,
            Err(e) => {
                proof {
                    assert(false);
                }
                return Err(e);
            },
        };
        let block_iter = BlockIterator::create_and_seek_to_first(block);
        let iter = SsTableIterator { sstable: table, block_idx: 0, block_iter };
        proof {
            assert(block_entries(iter.inner().blk()).skip(0) =~= block_entries(
                iter.inner().blk(),
            ));
            assert(iter.remaining() =~= view_entries_from(iter.tbl(), 0));
        }
        Ok(iter)
    }

    /// Seeks to the first entry of the table.
    pub fn seek_to_first(&mut self) -> (r: Result<(), LsmError>)
        requires
            old(self).inv(),
        ensures
            r is Ok,
            final(self).inv(),
            final(self).tbl() == old(self).tbl(),
            final(self).remaining() == view_entries_from(old(self).tbl(), 0),
    {
        proof {
            assert(view_block_ok(self.tbl(), 0));
        }
        let block = match self.sstable.read_block(0) {
            Ok(b) => b,
            Err(e) => {
                proof {
                    assert(false);
                }
                return Err(e);
            },
        };
        self.block_idx = 0;
        self.block_iter = BlockIterator::create_and_seek_to_first(block);
        proof {
            assert(block_entries(self.inner().blk()).skip(0) =~= block_entries(
                self.inner().blk(),
            ));
            assert(self.remaining() =~= view_entries_from(self.tbl(), 0));
        }
        Ok(())
    }

    /// Creates an iterator positioned on the first entry whose key is
    /// `>= key`.
    pub fn create_and_seek_to_key(table: Arc<SsTable>, key: &[u8]) -> (r: Result<
        SsTableIterator,
        LsmError,
    >)
        requires
            view_data_wf(table@),
        ensures
            r is Ok,
            r->Ok_0.inv(),
            r->Ok_0.tbl() == table@,
            r->Ok_0.remaining().len() > 0 ==> lex_le(key@, r->Ok_0.remaining()[0].0),
            exists|j: int|
                0 <= j <= view_entries_from(table@, 0).len() && r->Ok_0.remaining()
                    == view_entries_from(table@, 0).skip(j) && (forall|i: int|
                    0 <= i < j ==> lex_lt((#[trigger] view_entries_from(table@, 0)[i]).0, key@)),
    {
        let (block_idx, block_iter) = Self::seek_inner(&table, key);
        Ok(SsTableIterator { sstable: table, block_idx, block_iter })
    }

    /// Seeks to the first entry whose key is `>= key`.
    pub fn seek_to_key(&mut self, key: &[u8]) -> (r: Result<(), LsmError>)
        requires
            old(self).inv(),
        ensures
            r is Ok,
            final(self).inv(),
            final(self).tbl() == old(self).tbl(),
            final(self).remaining().len() > 0 ==> lex_le(key@, final(self).remaining()[0].0),
            exists|j: int|
                0 <= j <= view_entries_from(old(self).tbl(), 0).len() && final(self).remaining()
                    == view_entries_from(old(self).tbl(), 0).skip(j) && (forall|i: int|
                    0 <= i < j ==> lex_lt(
                        (#[trigger] view_entries_from(old(self).tbl(), 0)[i]).0,
                        key@,
                    )),
    {
        let (block_idx, block_iter) = Self::seek_inner(&self.sstable, key);
        self.block_idx = block_idx;
        self.block_iter = block_iter;
        Ok(())
    }

    /// Positions on the first entry `>= key`: looks up the candidate block,
    /// seeks within it, and steps to the next block when the key falls in
    /// the gap between two blocks.
    #[verifier::rlimit(100)]
    fn seek_inner(sstable: &Arc<SsTable>, key: &[u8]) -> (r: (usize, BlockIterator))
        requires
            view_data_wf(sstable@),
        ensures
            ({
                let v = sstable@;
                &&& 0 <= r.0 < v.metas.len()
                &&& r.1.inv()
                &&& r.1.blk() == view_block_at(v, r.0 as int)->Some_0
                &&& !r.1.spec_valid() ==> r.0 as int == v.metas.len() - 1
                &&& remaining_at(v, r.0 as int, r.1).len() > 0 ==> lex_le(
                    key@,
                    remaining_at(v, r.0 as int, r.1)[0].0,
                )
                &&& exists|j: int|
                    0 <= j <= view_entries_from(v, 0).len() && remaining_at(v, r.0 as int, r.1)
                        == view_entries_from(v, 0).skip(j) && (forall|i: int|
                        0 <= i < j ==> lex_lt((#[trigger] view_entries_from(v, 0)[i]).0, key@))
            }),
    {
        let ghost v = sstable@;
        let ghost all = view_entries_from(v, 0);
        let block_idx = sstable.find_block_idx(key);
        proof {
            assert(view_block_ok(v, block_idx as int));
        }
        let block = match sstable.read_block(block_idx) {
            Ok(b) => b,
            Err(e) => {
                proof {
                    assert(false);
                }
                return (0, BlockIterator::create_and_seek_to_first(
                    sstable.read_block(0).unwrap(),
                ));
            },
        };
        let mut block_iter = BlockIterator::create_and_seek_to_key(block, key);
        let ghost entries = block_entries(view_block_at(v, block_idx as int)->Some_0);
        let ghost p = Seq::<(Seq<u8>, Seq<u8>)>::empty();
        proof {
            let p0 = lemma_view_entries_prefix(v, block_idx as int);
            assert(all == p0 + view_entries_from(v, block_idx as int));
            assert(view_entries_from(v, block_idx as int) == entries + view_entries_from(
                v,
                block_idx as int + 1,
            ));
        }
        if block_iter.is_valid() {
            proof {
                let p0 = lemma_view_entries_prefix(v, block_idx as int);
                let jj = block_iter.spec_idx();
                let j = p0.len() + jj;
                // Keys before the landing point precede `key`.
                assert forall|i: int| 0 <= i < j implies lex_lt((#[trigger] all[i]).0, key@) by {
                    if i < p0.len() {
                        assert(lex_lt(p0[i].0, v.metas[block_idx as int].first_key));
                        assert(lex_le(v.metas[block_idx as int].first_key, key@)) by {
                            if lex_lt(key@, v.metas[0].first_key) {
                                // Then the candidate block is 0 and the
                                // prefix is empty.
                                assert(p0.len() == 0);
                            }
                        }
                        lemma_lex_lt_le_transitive(
                            p0[i].0,
                            v.metas[block_idx as int].first_key,
                            key@,
                        );
                        assert(all[i] == p0[i]);
                    } else {
                        assert(all[i] == entries[i - p0.len()]);
                        assert(lex_lt(entries[i - p0.len()].0, key@));
                    }
                }
                assert(remaining_at(v, block_idx as int, block_iter) =~= all.skip(j as int));
                // The landing entry is at or above the key.
                assert(remaining_at(v, block_idx as int, block_iter)[0] == entries[jj]);
                assert(lex_le(key@, entries[jj].0));
            }
            return (block_idx, block_iter);
        }
        // The key is greater than every key in the candidate block.
        proof {
            assert forall|l: int| 0 <= l < entries.len() implies lex_lt(
                (#[trigger] entries[l]).0,
                key@,
            ) by {
                assert(!lex_le(key@, entries[l].0));
                lemma_lex_trichotomy(key@, entries[l].0);
            }
            // So the key is not below the table's range: block 0's first key
            // would otherwise be an entry at or above it.
            assert(!lex_lt(key@, v.metas[0].first_key)) by {
                if lex_lt(key@, v.metas[0].first_key) {
                    assert(block_idx == 0);
                    assert(entries[0].0 == v.metas[0].first_key);
                    assert(lex_le(key@, entries[0].0));
                }
            }
        }
        let nb = sstable.num_of_blocks();
        if block_idx + 1 < nb {
            proof {
                assert(view_block_ok(v, block_idx as int + 1));
            }
            let next_block = match sstable.read_block(block_idx + 1) {
                Ok(b) => b,
                Err(e) => {
                    proof {
                        assert(false);
                    }
                    return (block_idx, block_iter);
                },
            };
            let next_iter = BlockIterator::create_and_seek_to_first(next_block);
            proof {
                let p1 = lemma_view_entries_prefix(v, block_idx as int + 1);
                let j = p1.len() as int;
                assert forall|i: int| 0 <= i < j implies lex_lt((#[trigger] all[i]).0, key@) by {
                    assert(lex_lt(p1[i].0, v.metas[block_idx as int + 1].first_key));
                    assert(all[i] == p1[i]);
                    // Everything before the next block is either in the
                    // prefix of the candidate block — below `key` because
                    // the candidate's first key is — or in the candidate
                    // block itself, where every key precedes `key`.
                    let p0 = lemma_view_entries_prefix(v, block_idx as int);
                    if i < p0.len() {
                        assert(all[i] == p0[i]);
                        assert(lex_lt(p0[i].0, v.metas[block_idx as int].first_key));
                        assert(lex_le(v.metas[block_idx as int].first_key, key@)) by {
                            if lex_lt(key@, v.metas[0].first_key) {
                                assert(p0.len() == 0);
                            }
                        }
                        lemma_lex_lt_le_transitive(
                            p0[i].0,
                            v.metas[block_idx as int].first_key,
                            key@,
                        );
                    } else {
                        assert(all[i] == entries[i - p0.len()]);
                        assert(lex_lt(entries[i - p0.len()].0, key@));
                    }
                }
                assert(block_entries(next_iter.blk()).skip(0) =~= block_entries(next_iter.blk()));
                assert(remaining_at(v, block_idx as int + 1, next_iter) =~= all.skip(j));
                // The next block's first entry is above the key.
                assert(remaining_at(v, block_idx as int + 1, next_iter)[0] == block_entries(
                    next_iter.blk(),
                )[0]);
                assert(block_entries(next_iter.blk())[0].0 == v.metas[block_idx as int
                    + 1].first_key);
                assert(lex_lt(key@, v.metas[block_idx as int + 1].first_key));
            }
            return (block_idx + 1, next_iter);
        }
        proof {
            // No later block: everything in the table precedes `key`.
            let j = all.len() as int;
            let p0 = lemma_view_entries_prefix(v, block_idx as int);
            assert(view_entries_from(v, block_idx as int + 1) =~= Seq::<(Seq<u8>, Seq<u8>)>::empty());
            assert(all =~= p0 + entries);
            assert forall|i: int| 0 <= i < j implies lex_lt((#[trigger] all[i]).0, key@) by {
                if i < p0.len() {
                    assert(all[i] == p0[i]);
                    assert(lex_lt(p0[i].0, v.metas[block_idx as int].first_key));
                    assert(lex_le(v.metas[block_idx as int].first_key, key@)) by {
                        if lex_lt(key@, v.metas[0].first_key) {
                            assert(p0.len() == 0);
                        }
                    }
                    lemma_lex_lt_le_transitive(
                        p0[i].0,
                        v.metas[block_idx as int].first_key,
                        key@,
                    );
                } else {
                    assert(all[i] == entries[i - p0.len()]);
                    assert(lex_lt(entries[i - p0.len()].0, key@));
                }
            }
            assert(remaining_at(v, block_idx as int, block_iter) =~= all.skip(j));
        }
        (block_idx, block_iter)
    }

    /// Returns the key of the current entry.
    pub fn key(&self) -> (k: &[u8])
        requires
            self.inv(),
            self.spec_valid(),
        ensures
            k@ == self.remaining()[0].0,
    {
        proof {
            assert(self.remaining()[0] == block_entries(self.inner().blk())[self.inner().spec_idx()]);
        }
        self.block_iter.key()
    }

    /// Returns the value of the current entry.
    pub fn value(&self) -> (val: &[u8])
        requires
            self.inv(),
            self.spec_valid(),
        ensures
            val@ == self.remaining()[0].1,
    {
        proof {
            assert(self.remaining()[0] == block_entries(self.inner().blk())[self.inner().spec_idx()]);
        }
        self.block_iter.value()
    }

    /// Returns true while entries remain.
    pub fn is_valid(&self) -> (r: bool)
        requires
            self.inv(),
        ensures
            r == self.spec_valid(),
            r == (self.remaining().len() > 0),
    {
        proof {
            if self.inner().spec_valid() {
                assert(self.remaining().len() > 0);
            }
        }
        self.block_iter.is_valid()
    }

    /// Advances to the next entry, loading the next block at a boundary.
    pub fn next(&mut self) -> (r: Result<(), LsmError>)
        requires
            old(self).inv(),
            old(self).spec_valid(),
        ensures
            r is Ok,
            final(self).inv(),
            final(self).tbl() == old(self).tbl(),
            final(self).remaining() == old(self).remaining().drop_first(),
    {
        let ghost v = self.tbl();
        let ghost b = self.spec_block_idx();
        let ghost entries = block_entries(self.inner().blk());
        let ghost idx = self.inner().spec_idx();
        self.block_iter.next();
        if !self.block_iter.is_valid() {
            let nb = self.sstable.num_of_blocks();
            if self.block_idx + 1 < nb {
                proof {
                    assert(view_block_ok(v, b + 1));
                }
                let block = match self.sstable.read_block(self.block_idx + 1) {
                    Ok(blk) => blk,
                    Err(e) => {
                        proof {
                            assert(false);
                        }
                        return Err(e);
                    },
                };
                self.block_idx = self.block_idx + 1;
                self.block_iter = BlockIterator::create_and_seek_to_first(block);
                proof {
                    // The old block is spent: its tail was one entry long.
                    assert(entries.skip(idx).len() == 1);
                    assert(view_entries_from(v, b + 1) == block_entries(
                        view_block_at(v, b + 1)->Some_0,
                    ) + view_entries_from(v, b + 2));
                    assert(block_entries(self.inner().blk()).skip(0) =~= block_entries(
                        self.inner().blk(),
                    ));
                    assert(self.remaining() =~= (entries.skip(idx) + view_entries_from(
                        v,
                        b + 1,
                    )).drop_first());
                }
            } else {
                proof {
                    assert(b == v.metas.len() - 1);
                    assert(entries.skip(idx).len() == 1);
                    assert(view_entries_from(v, b + 1) =~= Seq::<(Seq<u8>, Seq<u8>)>::empty());
                    assert(self.remaining() =~= (entries.skip(idx) + view_entries_from(
                        v,
                        b + 1,
                    )).drop_first());
                }
            }
        } else {
            proof {
                assert(entries.skip(idx + 1) =~= entries.skip(idx).drop_first());
                assert(self.remaining() =~= (entries.skip(idx) + view_entries_from(
                    v,
                    b + 1,
                )).drop_first());
            }
        }
        Ok(())
    }
}

impl crate::iterators::StorageIterator for SsTableIterator {
    open spec fn inv(&self) -> bool {
        SsTableIterator::inv(self)
    }

    open spec fn remaining(&self) -> Seq<(Seq<u8>, Seq<u8>)> {
        SsTableIterator::remaining(self)
    }

    proof fn lemma_remaining_sorted(&self) {
        lemma_remaining_sorted(*self);
    }

    fn key(&self) -> (k: &[u8]) {
        SsTableIterator::key(self)
    }

    fn value(&self) -> (v: &[u8]) {
        SsTableIterator::value(self)
    }

    fn is_valid(&self) -> (r: bool) {
        SsTableIterator::is_valid(self)
    }

    fn next(&mut self) -> (r: Result<(), LsmError>) {
        proof {
            if !self.spec_valid() {
                assert(self.remaining() =~= Seq::<(Seq<u8>, Seq<u8>)>::empty());
            }
        }
        SsTableIterator::next(self)
    }
}

/// The remaining entries of a position in a sound table are sorted with
/// non-empty keys.
pub proof fn lemma_remaining_sorted(it: SsTableIterator)
    requires
        it.inv(),
    ensures
        entries_sorted(it.remaining()),
        entries_keys_nonempty(it.remaining()),
{
    if it.inner().spec_valid() {
        let v = it.tbl();
        let b = it.spec_block_idx();
        lemma_view_entries_sorted(v, b);
        let from_b = view_entries_from(v, b);
        let entries = block_entries(view_block_at(v, b)->Some_0);
        assert(from_b == entries + view_entries_from(v, b + 1));
        let rem = it.remaining();
        assert(rem =~= from_b.skip(it.inner().spec_idx()));
        assert forall|i: int, j: int| 0 <= i < j < rem.len() implies lex_lt(
            #[trigger] rem[i].0,
            #[trigger] rem[j].0,
        ) by {
            assert(rem[i] == from_b[it.inner().spec_idx() + i]);
            assert(rem[j] == from_b[it.inner().spec_idx() + j]);
        }
        assert forall|i: int| 0 <= i < rem.len() implies (#[trigger] rem[i]).0.len() > 0 by {
            assert(rem[i] == from_b[it.inner().spec_idx() + i]);
        }
    }
}

} // verus!

//! The shared iterator capability: a sorted stream of key-value entries,
//! consumed by the merge iterators and exposed by the memtable and SST
//! iterators.

pub mod merge_iterator;
pub mod two_merge_iterator;

use vstd::prelude::*;

use crate::error::LsmError;
use crate::keys::{entries_keys_nonempty, entries_sorted};

verus! {

/// A sorted stream of key-value entries. `remaining()` models the entries
/// not yet consumed, the currently exposed one first; an iterator with no
/// remaining entries is invalid, stays invalid, and must not be advanced.
pub trait StorageIterator: Sized {
    /// The implementation's invariant.
    spec fn inv(&self) -> bool;

    /// The entries not yet consumed, current first.
    spec fn remaining(&self) -> Seq<(Seq<u8>, Seq<u8>)>;

    /// Every stream is strictly sorted by key, with non-empty keys.
    proof fn lemma_remaining_sorted(&self)
        requires
            self.inv(),
        ensures
            entries_sorted(self.remaining()),
            entries_keys_nonempty(self.remaining()),
    ;

    /// The key of the current entry.
    fn key(&self) -> (k: &[u8])
        requires
            self.inv(),
            self.remaining().len() > 0,
        ensures
            k@ == self.remaining()[0].0,
    ;

    /// The value of the current entry.
    fn value(&self) -> (v: &[u8])
        requires
            self.inv(),
            self.remaining().len() > 0,
        ensures
            v@ == self.remaining()[0].1,
    ;

    /// True while entries remain.
    fn is_valid(&self) -> (r: bool)
        requires
            self.inv(),
        ensures
            r == (self.remaining().len() > 0),
    ;

    /// Advances past the current entry. May fail with an I/O or corruption
    /// error, in which case nothing is promised of the stream beyond its
    /// invariant.
    fn next(&mut self) -> (r: Result<(), LsmError>)
        requires
            old(self).inv(),
            old(self).remaining().len() > 0,
        ensures
            final(self).inv(),
            r is Ok ==> final(self).remaining() == old(self).remaining().drop_first(),
    ;
}

} // verus!

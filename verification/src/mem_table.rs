//! The in-memory write buffer: a concurrent ordered map from key to value
//! with unique keys; the last writer wins. Scans deliver a sorted snapshot
//! of the keys in range.

use std::ops::Bound;

use vstd::prelude::*;

use crate::error::LsmError;
use crate::iterators::StorageIterator;
use crate::keys::{
    entries_keys_nonempty, entries_sorted, lemma_lex_trichotomy, lex_le, lex_lt,
};
use crate::table::builder::SsTableBuilder;
use crossbeam_skiplist::SkipMap;

verus! {

#[verifier::external_type_specification]
#[verifier::external_body]
#[verifier::reject_recursive_types(K)]
#[verifier::reject_recursive_types(V)]
pub struct ExSkipMap<K, V>(SkipMap<K, V>);

/// What a skip map of byte keys and values holds.
pub uninterp spec fn skipmap_contents(m: SkipMap<Vec<u8>, Vec<u8>>) -> Map<Seq<u8>, Seq<u8>>;

/// A bound of a memtable scan.
pub enum ScanBound {
    Included(Vec<u8>),
    Excluded(Vec<u8>),
    Unbounded,
}

/// Whether `key` is at or above the lower bound.
pub open spec fn lower_allows(b: ScanBound, key: Seq<u8>) -> bool {
    match b {
        ScanBound::Included(l) => lex_le(l@, key),
        ScanBound::Excluded(l) => lex_lt(l@, key),
        ScanBound::Unbounded => true,
    }
}

/// Whether `key` is at or below the upper bound.
pub open spec fn upper_allows(b: ScanBound, key: Seq<u8>) -> bool {
    match b {
        ScanBound::Included(u) => lex_le(key, u@),
        ScanBound::Excluded(u) => lex_lt(key, u@),
        ScanBound::Unbounded => true,
    }
}

/// The bytes one entry costs when flushed into an SST, bounded above: key
/// and value bytes plus sixteen for the entry headers, the offset slot, and
/// the per-block overhead it may open.
pub open spec fn entries_weight(es: Seq<(Seq<u8>, Seq<u8>)>) -> int
    decreases es.len(),
{
    if es.len() == 0 {
        0
    } else {
        entries_weight(es.drop_last()) + es.last().0.len() + es.last().1.len() + 16
    }
}

/// `es` lists exactly the entries of `m`, in strictly increasing key order.
pub open spec fn is_sorted_listing(es: Seq<(Seq<u8>, Seq<u8>)>, m: Map<Seq<u8>, Seq<u8>>) -> bool {
    &&& entries_sorted(es)
    &&& forall|i: int|
        0 <= i < es.len() ==> m.contains_key((#[trigger] es[i]).0) && m[es[i].0] == es[i].1
    &&& forall|k: Seq<u8>|
        m.contains_key(k) ==> exists|i: int| 0 <= i < es.len() && (#[trigger] es[i]).0 == k
}

/// The sorted listing of a map — unique when one exists.
pub open spec fn sorted_listing_of(m: Map<Seq<u8>, Seq<u8>>) -> Seq<(Seq<u8>, Seq<u8>)> {
    choose|es: Seq<(Seq<u8>, Seq<u8>)>| is_sorted_listing(es, m)
}

/// Two sorted listings of one map are equal.
pub proof fn lemma_sorted_listing_unique(
    m: Map<Seq<u8>, Seq<u8>>,
    a: Seq<(Seq<u8>, Seq<u8>)>,
    b: Seq<(Seq<u8>, Seq<u8>)>,
)
    requires
        is_sorted_listing(a, m),
        is_sorted_listing(b, m),
    ensures
        a == b,
    decreases a.len(),
{
    if a.len() == 0 {
        if b.len() > 0 {
            assert(m.contains_key(b[0].0));
        }
        assert(a =~= b);
    } else {
        assert(m.contains_key(a[0].0));
        assert(b.len() > 0);
        // The heads carry the same key: each head is at or below the other.
        let ka = a[0].0;
        let kb = b[0].0;
        let jb = choose|i: int| 0 <= i < b.len() && (#[trigger] b[i]).0 == ka;
        let ja = choose|i: int| 0 <= i < a.len() && (#[trigger] a[i]).0 == kb;
        assert(lex_le(kb, ka)) by {
            if jb > 0 {
                assert(lex_lt(b[0].0, b[jb].0));
            }
        }
        assert(lex_le(ka, kb)) by {
            if ja > 0 {
                assert(lex_lt(a[0].0, a[ja].0));
            }
        }
        lemma_lex_trichotomy(ka, kb);
        assert(ka == kb);
        assert(a[0] == b[0]);
        // The tails list the map without that key.
        let m2 = m.remove(ka);
        let a2 = a.drop_first();
        let b2 = b.drop_first();
        assert(is_sorted_listing(a2, m2)) by {
            lemma_tail_is_listing(m, a);
        }
        assert(is_sorted_listing(b2, m2)) by {
            lemma_tail_is_listing(m, b);
        }
        lemma_sorted_listing_unique(m2, a2, b2);
        assert forall|i: int| 0 <= i < a.len() implies a[i] == b[i] by {
            if i > 0 {
                assert(a[i] == a2[i - 1]);
                assert(b[i] == b2[i - 1]);
            }
        }
        assert(a =~= b);
    }
}

/// Dropping the head of a sorted listing lists the map without its key.
proof fn lemma_tail_is_listing(m: Map<Seq<u8>, Seq<u8>>, a: Seq<(Seq<u8>, Seq<u8>)>)
    requires
        is_sorted_listing(a, m),
        a.len() > 0,
    ensures
        is_sorted_listing(a.drop_first(), m.remove(a[0].0)),
{
    let ka = a[0].0;
    let m2 = m.remove(ka);
    let a2 = a.drop_first();
    assert forall|i: int, j: int| 0 <= i < j < a2.len() implies lex_lt(
        #[trigger] a2[i].0,
        #[trigger] a2[j].0,
    ) by {
        assert(a2[i] == a[i + 1]);
        assert(a2[j] == a[j + 1]);
        assert(lex_lt(a[i + 1].0, a[j + 1].0));
    }
    assert forall|i: int| 0 <= i < a2.len() implies m2.contains_key((#[trigger] a2[i]).0)
        && m2[a2[i].0] == a2[i].1 by {
        assert(a2[i] == a[i + 1]);
        assert(lex_lt(a[0].0, a[i + 1].0));
        lemma_lex_trichotomy(a[0].0, a[i + 1].0);
        assert(a[i + 1].0 != ka);
    }
    assert forall|k: Seq<u8>| m2.contains_key(k) implies exists|i: int|
        0 <= i < a2.len() && (#[trigger] a2[i]).0 == k by {
        assert(m.contains_key(k));
        let w = choose|i: int| 0 <= i < a.len() && (#[trigger] a[i]).0 == k;
        assert(w != 0);
        assert(a2[w - 1] == a[w]);
    }
}

/// Every prefix of an entry sequence weighs no more than the whole.
proof fn lemma_weight_prefix(es: Seq<(Seq<u8>, Seq<u8>)>, i: int)
    requires
        0 <= i <= es.len(),
    ensures
        entries_weight(es.subrange(0, i)) <= entries_weight(es),
    decreases es.len() - i,
{
    if i == es.len() {
        assert(es.subrange(0, i) =~= es);
    } else {
        lemma_weight_prefix(es, i + 1);
        assert(es.subrange(0, i + 1).drop_last() =~= es.subrange(0, i));
        assert(es.subrange(0, i + 1).last() == es[i]);
        assert(entries_weight(es.subrange(0, i + 1)) == entries_weight(es.subrange(0, i))
            + es[i].0.len() + es[i].1.len() + 16);
    }
}

/// The contents of a map holding nothing.
pub open spec fn empty_contents() -> Map<Seq<u8>, Seq<u8>> {
    Map::empty()
}

/// Relies on crossbeam_skiplist's SkipMap::new: a fresh map is empty.
#[verifier::external_body]
fn skipmap_new() -> (r: SkipMap<Vec<u8>, Vec<u8>>)
    ensures
        skipmap_contents(r) == empty_contents(),
{
    SkipMap::new()
}

/// Relies on crossbeam_skiplist's SkipMap::insert: an existing entry with
/// this key is replaced, so the map now holds exactly the old entries plus
/// this binding.
#[verifier::external_body]
fn skipmap_insert(m: &mut SkipMap<Vec<u8>, Vec<u8>>, key: Vec<u8>, value: Vec<u8>)
    ensures
        skipmap_contents(*final(m)) == skipmap_contents(*old(m)).insert(key@, value@),
{
    m.insert(key, value);
}

/// Relies on crossbeam_skiplist's SkipMap::get: returns the value bound to
/// the key, if any.
#[verifier::external_body]
fn skipmap_get(m: &SkipMap<Vec<u8>, Vec<u8>>, key: &[u8]) -> (r: Option<Vec<u8>>)
    ensures
        skipmap_contents(*m).contains_key(key@) ==> r is Some && r->Some_0@ == skipmap_contents(
            *m,
        )[key@],
        !skipmap_contents(*m).contains_key(key@) ==> r is None,
{
    m.get(key).map(|e| e.value().clone())
}

/// Relies on crossbeam_skiplist's SkipMap::range: yields exactly the entries
/// whose keys fall within the bounds, in increasing key order, each key once.
#[verifier::external_body]
fn skipmap_range_collect(
    m: &SkipMap<Vec<u8>, Vec<u8>>,
    lower: &ScanBound,
    upper: &ScanBound,
) -> (r: Vec<(Vec<u8>, Vec<u8>)>)
    ensures
        entries_sorted(r.deep_view()),
        forall|i: int|
            0 <= i < r.deep_view().len() ==> {
                let e = #[trigger] r.deep_view()[i];
                &&& skipmap_contents(*m).contains_key(e.0)
                &&& skipmap_contents(*m)[e.0] == e.1
                &&& lower_allows(*lower, e.0)
                &&& upper_allows(*upper, e.0)
            },
        forall|k: Seq<u8>|
            skipmap_contents(*m).contains_key(k) && lower_allows(*lower, k) && upper_allows(
                *upper,
                k,
            ) ==> exists|i: int|
                0 <= i < r.deep_view().len() && (#[trigger] r.deep_view()[i]).0 == k,
{
    let lo: Bound<Vec<u8>> = match lower {
        ScanBound::Included(l) => Bound::Included(l.clone()),
        ScanBound::Excluded(l) => Bound::Excluded(l.clone()),
        ScanBound::Unbounded => Bound::Unbounded,
    };
    let hi: Bound<Vec<u8>> = match upper {
        ScanBound::Included(u) => Bound::Included(u.clone()),
        ScanBound::Excluded(u) => Bound::Excluded(u.clone()),
        ScanBound::Unbounded => Bound::Unbounded,
    };
    m.range((lo, hi)).map(|e| (e.key().clone(), e.value().clone())).collect()
}

/// A basic memtable backed by a concurrent skip map.
pub struct MemTable {
    map: SkipMap<Vec<u8>, Vec<u8>>,
}

impl View for MemTable {
    type V = Map<Seq<u8>, Seq<u8>>;

    closed spec fn view(&self) -> Map<Seq<u8>, Seq<u8>> {
        skipmap_contents(self.map)
    }
}

impl MemTable {
    /// Every key stored is non-empty and fits the on-disk length fields, as
    /// `put` demands.
    pub open spec fn keys_wf(&self) -> bool {
        forall|k: Seq<u8>|
            self@.contains_key(k) ==> 0 < #[trigger] k.len() <= 0xffff && self@[k].len() <= 0xffff
    }

    /// Creates an empty memtable.
    pub fn create() -> (r: MemTable)
        ensures
            r@ == empty_contents(),
            r.keys_wf(),
    {
        MemTable { map: skipmap_new() }
    }

    /// Returns the value bound to `key`, or nothing.
    pub fn get(&self, key: &[u8]) -> (r: Option<Vec<u8>>)
        ensures
            self@.contains_key(key@) ==> r is Some && r->Some_0@ == self@[key@],
            !self@.contains_key(key@) ==> r is None,
    {
        skipmap_get(&self.map, key)
    }

    /// Binds `key` to `value`, overwriting any previous binding. The key and
    /// value are copied, so the table owns its storage.
    pub fn put(&mut self, key: &[u8], value: &[u8])
        requires
            old(self).keys_wf(),
            0 < key@.len() <= 0xffff,
            value@.len() <= 0xffff,
        ensures
            final(self)@ == old(self)@.insert(key@, value@),
            final(self).keys_wf(),
    {
        let k = vstd::slice::slice_to_vec(key);
        let v = vstd::slice::slice_to_vec(value);
        skipmap_insert(&mut self.map, k, v);
        proof {
            assert forall|x: Seq<u8>| self@.contains_key(x) implies 0 < #[trigger] x.len()
                <= 0xffff && self@[x].len() <= 0xffff by {
                if x != key@ {
                    assert(old(self)@.contains_key(x));
                }
            }
        }
    }

    /// Returns an iterator over a sorted snapshot of the entries whose keys
    /// fall within the bounds; invalid when the range is empty.
    pub fn scan(&self, lower: &ScanBound, upper: &ScanBound) -> (r: MemTableIterator)
        requires
            self.keys_wf(),
        ensures
            r.inv(),
            entries_sorted(r.remaining()),
            forall|i: int|
                0 <= i < r.remaining().len() ==> {
                    let e = #[trigger] r.remaining()[i];
                    &&& self@.contains_key(e.0)
                    &&& self@[e.0] == e.1
                    &&& lower_allows(*lower, e.0)
                    &&& upper_allows(*upper, e.0)
                },
            forall|k: Seq<u8>|
                self@.contains_key(k) && lower_allows(*lower, k) && upper_allows(*upper, k)
                    ==> exists|i: int|
                    0 <= i < r.remaining().len() && (#[trigger] r.remaining()[i]).0 == k,
    {
        let entries = skipmap_range_collect(&self.map, lower, upper);
        let r = MemTableIterator { entries, pos: 0 };
        proof {
            assert(r.remaining() =~= r.entries.deep_view());
        }
        r
    }

    /// Feeds every entry of the table, in key order, to the SST builder,
    /// appending after whatever the builder already holds. Success is owed
    /// to every table that fits: flushing fails — with `InvariantViolated`,
    /// before the 32-bit meta offset of the SST format would overflow — only
    /// when the builder's data plus the table's weighed byte size outgrow
    /// that offset.
    #[verifier::rlimit(100)]
    pub fn flush(&self, builder: &mut SsTableBuilder) -> (r: Result<(), LsmError>)
        requires
            self.keys_wf(),
            old(builder).wf(),
            old(builder).spec_added().len() > 0 ==> forall|k: Seq<u8>|
                #[trigger] self@.contains_key(k) ==> lex_lt(
                    old(builder).spec_added().last().0,
                    k,
                ),
        ensures
            final(builder).wf(),
            is_sorted_listing(sorted_listing_of(self@), self@),
            old(builder).spec_data_size() + old(builder).spec_pending_size() + entries_weight(
                sorted_listing_of(self@),
            ) <= 0xffa0_0000 ==> r is Ok,
            r is Err ==> r == Err::<(), LsmError>(LsmError::InvariantViolated) && old(
                builder,
            ).spec_data_size() + old(builder).spec_pending_size() + entries_weight(
                sorted_listing_of(self@),
            ) > 0xffa0_0000,
            r is Ok ==> final(builder).spec_added() == old(builder).spec_added()
                + sorted_listing_of(self@),
    {
        let lower = ScanBound::Unbounded;
        let upper = ScanBound::Unbounded;
        let entries = skipmap_range_collect(&self.map, &lower, &upper);
        let n = entries.len();
        proof {
            // The snapshot is the table's sorted listing: sound, complete,
            // and strictly sorted, and such a listing is unique.
            assert forall|k: Seq<u8>| self@.contains_key(k) implies exists|j: int|
                0 <= j < entries.deep_view().len()
                    && (#[trigger] entries.deep_view()[j]).0 == k by {
                assert(skipmap_contents(self.map).contains_key(k));
                assert(lower_allows(lower, k));
                assert(upper_allows(upper, k));
            }
            assert(is_sorted_listing(entries.deep_view(), self@));
            lemma_sorted_listing_unique(self@, sorted_listing_of(self@), entries.deep_view());
            builder.lemma_pending_floor();
            assert(old(builder).spec_added() + entries.deep_view().subrange(0, 0)
                =~= old(builder).spec_added());
        }
        let mut i: usize = 0;
        while i < n
            invariant
                i <= n,
                n == entries.deep_view().len(),
                is_sorted_listing(entries.deep_view(), self@),
                sorted_listing_of(self@) == entries.deep_view(),
                builder.wf(),
                builder.spec_added() == old(builder).spec_added() + entries.deep_view().subrange(
                    0,
                    i as int,
                ),
                old(builder).spec_added().len() > 0 ==> forall|k: Seq<u8>|
                    #[trigger] self@.contains_key(k) ==> lex_lt(
                        old(builder).spec_added().last().0,
                        k,
                    ),
                builder.spec_pending_size() >= 2,
                builder.spec_data_size() + builder.spec_pending_size() <= old(
                    builder,
                ).spec_data_size() + old(builder).spec_pending_size() + entries_weight(
                    entries.deep_view().subrange(0, i as int),
                ),
                entries_sorted(entries.deep_view()),
                forall|j: int|
                    0 <= j < entries.deep_view().len() ==> {
                        let e = #[trigger] entries.deep_view()[j];
                        &&& self@.contains_key(e.0)
                        &&& self@[e.0] == e.1
                        &&& 0 < e.0.len() <= 0xffff
                        &&& e.1.len() <= 0xffff
                    },
            decreases n - i,
        {
            if builder.estimated_size() >= 0xfff0_0000 {
                // More data than the 32-bit meta offset can address: a
                // caller error this format cannot represent. A table whose
                // weighed size fits the offset never reaches this.
                proof {
                    lemma_weight_prefix(entries.deep_view(), i as int);
                    assert(old(builder).spec_data_size() + old(builder).spec_pending_size()
                        + entries_weight(entries.deep_view()) > 0xffa0_0000);
                }
                return Err(LsmError::InvariantViolated);
            }
            let e = &entries[i];
            proof {
                assert(entries.deep_view()[i as int] == (e.0@, e.1@));
                if i > 0 {
                    assert(builder.spec_added().last() == entries.deep_view()[i as int - 1]);
                    assert(lex_lt(
                        entries.deep_view()[i as int - 1].0,
                        entries.deep_view()[i as int].0,
                    ));
                } else {
                    if old(builder).spec_added().len() > 0 {
                        assert(builder.spec_added() =~= old(builder).spec_added());
                        assert(self@.contains_key(entries.deep_view()[0].0));
                    }
                }
            }
            builder.add(e.0.as_slice(), e.1.as_slice());
            proof {
                assert(builder.spec_added() =~= old(builder).spec_added()
                    + entries.deep_view().subrange(0, i as int + 1));
                // The data plus in-flight sizes grow by at most this entry's
                // weight, whether or not a block was finalized.
                let pre = entries.deep_view().subrange(0, i as int);
                let post = entries.deep_view().subrange(0, i as int + 1);
                assert(post.drop_last() =~= pre);
                assert(post.last() == entries.deep_view()[i as int]);
                assert(entries_weight(post) == entries_weight(pre) + e.0@.len() + e.1@.len()
                    + 16);
            }
            i += 1;
        }
        proof {
            assert(entries.deep_view().subrange(0, n as int) =~= entries.deep_view());
        }
        Ok(())
    }
}

/// An iterator over a sorted snapshot of a memtable range.
pub struct MemTableIterator {
    /// The snapshot, in key order.
    entries: Vec<(Vec<u8>, Vec<u8>)>,
    /// The current position.
    pos: usize,
}

impl StorageIterator for MemTableIterator {
    closed spec fn inv(&self) -> bool {
        &&& self.pos <= self.entries.deep_view().len()
        &&& entries_sorted(self.entries.deep_view())
        &&& entries_keys_nonempty(self.entries.deep_view())
    }

    closed spec fn remaining(&self) -> Seq<(Seq<u8>, Seq<u8>)> {
        self.entries.deep_view().skip(self.pos as int)
    }

    proof fn lemma_remaining_sorted(&self) {
        let all = self.entries.deep_view();
        let rem = self.remaining();
        assert forall|i: int, j: int| 0 <= i < j < rem.len() implies lex_lt(
            #[trigger] rem[i].0,
            #[trigger] rem[j].0,
        ) by {
            assert(rem[i] == all[self.pos as int + i]);
            assert(rem[j] == all[self.pos as int + j]);
        }
        assert forall|i: int| 0 <= i < rem.len() implies (#[trigger] rem[i]).0.len() > 0 by {
            assert(rem[i] == all[self.pos as int + i]);
        }
    }

    fn key(&self) -> (k: &[u8]) {
        proof {
            assert(self.remaining()[0] == self.entries.deep_view()[self.pos as int]);
        }
        self.entries[self.pos].0.as_slice()
    }

    fn value(&self) -> (v: &[u8]) {
        proof {
            assert(self.remaining()[0] == self.entries.deep_view()[self.pos as int]);
        }
        self.entries[self.pos].1.as_slice()
    }

    fn is_valid(&self) -> (r: bool) {
        self.pos < self.entries.len()
    }

    /// Advancing a snapshot never fails.
    fn next(&mut self) -> (r: Result<(), LsmError>)
        ensures
            r is Ok,
            final(self).remaining() == old(self).remaining().drop_first(),
    {
        let n = self.entries.len();
        proof {
            assert(self.pos < n);
        }
        self.pos = self.pos + 1;
        proof {
            assert(self.entries.deep_view().skip(self.pos as int) =~= old(
                self,
            ).entries.deep_view().skip(old(self).pos as int).drop_first());
        }
        Ok(())
    }
}

} // verus!

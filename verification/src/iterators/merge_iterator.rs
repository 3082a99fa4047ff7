//! Merges many iterators of the same type into one sorted stream. When a key
//! occurs in several inputs, the input with the smallest index wins and the
//! key is produced once.

use vstd::prelude::*;

use crate::bytes_util::copy_range;
use crate::error::LsmError;
use crate::iterators::StorageIterator;
use crate::keys::{
    compare_keys, entries_keys_nonempty, entries_sorted, lemma_entries_tail,
    lemma_lex_trichotomy, lemma_lex_lt_transitive, lemma_lex_lt_le_transitive, lex_le, lex_lt,
    KeyOrdering,
};

verus! {

/// The streams left in a family of sources.
pub open spec fn sources_of<I: StorageIterator>(iters: Seq<Box<I>>) -> Seq<
    Seq<(Seq<u8>, Seq<u8>)>,
> {
    Seq::new(iters.len(), |i: int| iters[i].remaining())
}

/// Source `j` leads: it is non-exhausted, no source has a smaller head key,
/// and no source with the same head key has a smaller index.
pub open spec fn leads(ss: Seq<Seq<(Seq<u8>, Seq<u8>)>>, j: int) -> bool {
    &&& 0 <= j < ss.len()
    &&& ss[j].len() > 0
    &&& forall|i: int|
        0 <= i < ss.len() && ss[i].len() > 0 ==> lex_le(ss[j][0].0, (#[trigger] ss[i])[0].0)
    &&& forall|i: int|
        0 <= i < ss.len() && ss[i].len() > 0 && (#[trigger] ss[i])[0].0 == ss[j][0].0 ==> j <= i
}

/// Drops the head of the sources before `p` whose head key is `k` — the
/// state of a deduplication pass that stopped at source `p`.
pub open spec fn advance_equal_upto(
    ss: Seq<Seq<(Seq<u8>, Seq<u8>)>>,
    k: Seq<u8>,
    p: int,
) -> Seq<Seq<(Seq<u8>, Seq<u8>)>> {
    Seq::new(
        ss.len(),
        |i: int|
            if i < p && ss[i].len() > 0 && ss[i][0].0 == k {
                ss[i].drop_first()
            } else {
                ss[i]
            },
    )
}

/// Drops the head of every source whose head key is `k`.
pub open spec fn advance_equal(ss: Seq<Seq<(Seq<u8>, Seq<u8>)>>, k: Seq<u8>) -> Seq<
    Seq<(Seq<u8>, Seq<u8>)>,
> {
    Seq::new(
        ss.len(),
        |i: int|
            if ss[i].len() > 0 && ss[i][0].0 == k {
                ss[i].drop_first()
            } else {
                ss[i]
            },
    )
}

/// The number of entries left over all sources.
pub open spec fn total_len(ss: Seq<Seq<(Seq<u8>, Seq<u8>)>>) -> nat
    decreases ss.len(),
{
    if ss.len() == 0 {
        0
    } else {
        ss[0].len() + total_len(ss.drop_first())
    }
}

proof fn lemma_total_len_advance(ss: Seq<Seq<(Seq<u8>, Seq<u8>)>>, k: Seq<u8>)
    ensures
        total_len(advance_equal(ss, k)) <= total_len(ss),
        (exists|i: int| 0 <= i < ss.len() && (#[trigger] ss[i]).len() > 0 && ss[i][0].0 == k)
            ==> total_len(advance_equal(ss, k)) < total_len(ss),
    decreases ss.len(),
{
    if ss.len() > 0 {
        lemma_total_len_advance(ss.drop_first(), k);
        let adv = advance_equal(ss, k);
        assert(adv.drop_first() =~= advance_equal(ss.drop_first(), k));
        assert(total_len(adv) == adv[0].len() + total_len(adv.drop_first()));
        if exists|i: int|
            0 <= i < ss.len() && (#[trigger] ss[i]).len() > 0 && ss[i][0].0 == k {
            let w = choose|i: int|
                0 <= i < ss.len() && (#[trigger] ss[i]).len() > 0 && ss[i][0].0 == k;
            if w == 0 {
                assert(adv[0].len() < ss[0].len());
            } else {
                assert(ss.drop_first()[w - 1] == ss[w]);
            }
        }
    }
}

/// The sorted deduplicating merge of the sources: emit the leader's head,
/// advance every source holding that key, repeat.
pub open spec fn mergedn(ss: Seq<Seq<(Seq<u8>, Seq<u8>)>>) -> Seq<(Seq<u8>, Seq<u8>)>
    decreases total_len(ss),
    via mergedn_decreases
{
    if exists|j: int| leads(ss, j) {
        let j = choose|j: int| leads(ss, j);
        seq![ss[j][0]] + mergedn(advance_equal(ss, ss[j][0].0))
    } else {
        Seq::empty()
    }
}

#[via_fn]
proof fn mergedn_decreases(ss: Seq<Seq<(Seq<u8>, Seq<u8>)>>) {
    if exists|j: int| leads(ss, j) {
        let j = choose|j: int| leads(ss, j);
        lemma_total_len_advance(ss, ss[j][0].0);
    }
}

/// Two leaders are the same source.
pub proof fn lemma_leads_unique(ss: Seq<Seq<(Seq<u8>, Seq<u8>)>>, j1: int, j2: int)
    requires
        leads(ss, j1),
        leads(ss, j2),
    ensures
        j1 == j2,
{
    assert(lex_le(ss[j1][0].0, ss[j2][0].0));
    assert(lex_le(ss[j2][0].0, ss[j1][0].0));
    lemma_lex_trichotomy(ss[j1][0].0, ss[j2][0].0);
    assert(ss[j1][0].0 == ss[j2][0].0);
}

/// As long as one source is non-exhausted, some source leads.
pub proof fn lemma_leader_exists(ss: Seq<Seq<(Seq<u8>, Seq<u8>)>>, w: int)
    requires
        0 <= w < ss.len(),
        ss[w].len() > 0,
    ensures
        exists|j: int| leads(ss, j),
    decreases ss.len(),
{
    let n = ss.len() as int;
    if n == 1 {
        assert(leads(ss, 0));
    } else if exists|i: int| 0 <= i < n - 1 && (#[trigger] ss[i]).len() > 0 {
        let w2 = choose|i: int| 0 <= i < n - 1 && (#[trigger] ss[i]).len() > 0;
        {
            let ss2 = ss.drop_last();
            assert(ss2[w2] == ss[w2]);
            lemma_leader_exists(ss2, w2);
            let j = choose|j: int| leads(ss2, j);
            assert(ss2[j] == ss[j]);
            if ss[n - 1].len() == 0 {
                assert(leads(ss, j)) by {
                    assert(forall|i: int|
                        0 <= i < n - 1 ==> #[trigger] ss[i] == ss2[i]);
                }
            } else {
                lemma_lex_trichotomy(ss[j][0].0, ss[n - 1][0].0);
                if lex_le(ss[j][0].0, ss[n - 1][0].0) {
                    assert(leads(ss, j)) by {
                        assert(forall|i: int|
                            0 <= i < n - 1 ==> #[trigger] ss[i] == ss2[i]);
                    }
                } else {
                    assert(lex_lt(ss[n - 1][0].0, ss[j][0].0));
                    assert(leads(ss, n - 1)) by {
                        assert forall|i: int|
                            0 <= i < n && (#[trigger] ss[i]).len() > 0 implies lex_le(
                            ss[n - 1][0].0,
                            ss[i][0].0,
                        ) && (ss[i][0].0 == ss[n - 1][0].0 ==> n - 1 <= i) by {
                            if i < n - 1 {
                                assert(ss[i] == ss2[i]);
                                assert(lex_le(ss2[j][0].0, ss2[i][0].0));
                                lemma_lex_lt_le_transitive(
                                    ss[n - 1][0].0,
                                    ss[j][0].0,
                                    ss[i][0].0,
                                );
                            }
                        }
                    }
                }
            }
        }
    } else {
        // Every earlier source is empty, so the witness is the last one.
        assert(ss[n - 1].len() > 0);
        assert(leads(ss, n - 1));
    }
}

/// All sources sorted with non-empty keys.
pub open spec fn sources_wf(ss: Seq<Seq<(Seq<u8>, Seq<u8>)>>) -> bool {
    forall|i: int|
        0 <= i < ss.len() ==> entries_sorted(#[trigger] ss[i]) && entries_keys_nonempty(ss[i])
}

/// The merge of sorted sources is sorted with non-empty keys — so no key is
/// produced twice — and it starts at the leader.
pub proof fn lemma_mergedn_sorted(ss: Seq<Seq<(Seq<u8>, Seq<u8>)>>)
    requires
        sources_wf(ss),
    ensures
        entries_sorted(mergedn(ss)),
        entries_keys_nonempty(mergedn(ss)),
        mergedn(ss).len() > 0 ==> exists|j: int| leads(ss, j) && mergedn(ss)[0] == ss[j][0],
    decreases total_len(ss),
{
    let m = mergedn(ss);
    if exists|j: int| leads(ss, j) {
        let j = choose|j: int| leads(ss, j);
        let k = ss[j][0].0;
        let adv = advance_equal(ss, k);
        lemma_total_len_advance(ss, k);
        assert(sources_wf(adv)) by {
            assert forall|i: int|
                0 <= i < adv.len() implies entries_sorted(#[trigger] adv[i])
                && entries_keys_nonempty(adv[i]) by {
                if ss[i].len() > 0 && ss[i][0].0 == k {
                    lemma_entries_tail(ss[i]);
                }
            }
        }
        lemma_mergedn_sorted(adv);
        let rest = mergedn(adv);
        assert(m == seq![ss[j][0]] + rest);
        // Every head left after advancing is strictly above k.
        assert forall|i: int| 0 <= i < adv.len() && (#[trigger] adv[i]).len() > 0 implies lex_lt(
            k,
            adv[i][0].0,
        ) by {
            if ss[i].len() > 0 && ss[i][0].0 == k {
                assert(adv[i] == ss[i].drop_first());
                assert(adv[i][0] == ss[i][1]);
                assert(lex_lt(ss[i][0].0, ss[i][1].0));
            } else {
                assert(adv[i] == ss[i]);
                assert(lex_le(k, ss[i][0].0));
                lemma_lex_trichotomy(k, ss[i][0].0);
            }
        }
        assert(rest.len() > 0 ==> lex_lt(k, rest[0].0)) by {
            if rest.len() > 0 {
                let j2 = choose|j2: int| leads(adv, j2) && rest[0] == adv[j2][0];
            }
        }
        assert forall|x: int, y: int| 0 <= x < y < m.len() implies lex_lt(
            #[trigger] m[x].0,
            #[trigger] m[y].0,
        ) by {
            if x == 0 {
                assert(m[y] == rest[y - 1]);
                assert(lex_lt(k, rest[0].0));
                if y > 1 {
                    assert(lex_lt(rest[0].0, rest[y - 1].0));
                    lemma_lex_lt_transitive(k, rest[0].0, rest[y - 1].0);
                }
            } else {
                assert(m[x] == rest[x - 1]);
                assert(m[y] == rest[y - 1]);
                assert(lex_lt(rest[x - 1].0, rest[y - 1].0));
            }
        }
        assert forall|x: int| 0 <= x < m.len() implies (#[trigger] m[x]).0.len() > 0 by {
            if x > 0 {
                assert(m[x] == rest[x - 1]);
            }
        }
    } else {
        assert(m =~= Seq::<(Seq<u8>, Seq<u8>)>::empty());
    }
}

/// Law: when the smallest-indexed source holding a key is source `j`, the
/// merge yields that source's entry for the key — once, since the merge is
/// strictly sorted.
pub proof fn lemma_mergedn_min_index(ss: Seq<Seq<(Seq<u8>, Seq<u8>)>>, j: int, e: int)
    requires
        sources_wf(ss),
        0 <= j < ss.len(),
        0 <= e < ss[j].len(),
        forall|i: int, f: int|
            0 <= i < j && 0 <= f < ss[i].len() ==> (#[trigger] ss[i][f]).0 != ss[j][e].0,
    ensures
        exists|m: int| 0 <= m < mergedn(ss).len() && #[trigger] mergedn(ss)[m] == ss[j][e],
        forall|m: int|
            0 <= m < mergedn(ss).len() && (#[trigger] mergedn(ss)[m]).0 == ss[j][e].0
                ==> mergedn(ss)[m] == ss[j][e],
    decreases total_len(ss),
{
    let k = ss[j][e].0;
    let out = mergedn(ss);
    lemma_mergedn_sorted(ss);
    lemma_leader_exists(ss, j);
    let ld = choose|ld: int| leads(ss, ld);
    let kl = ss[ld][0].0;
    assert(out == seq![ss[ld][0]] + mergedn(advance_equal(ss, kl)));
    // The leader's key is at or below the sought key.
    assert(lex_le(kl, ss[j][0].0));
    assert(lex_le(kl, k)) by {
        if e > 0 {
            assert(lex_lt(ss[j][0].0, ss[j][e].0));
            lemma_lex_le_lt_transitive2(kl, ss[j][0].0, ss[j][e].0, ss[j][e].0);
        }
    }
    lemma_lex_trichotomy(kl, k);
    if kl == k {
        // The sought entry is the head of its source, and the leader's tie
        // rule picks the smallest index — which is `j`, since no earlier
        // source holds the key at all.
        assert(e == 0) by {
            if e > 0 {
                assert(lex_lt(ss[j][0].0, k));
                lemma_lex_trichotomy(kl, ss[j][0].0);
            }
        }
        assert(ld >= j) by {
            if ld < j {
                assert(ss[ld][0].0 != k);
            }
        }
        assert(ld <= j);
        assert(out[0] == ss[j][e]);
        assert forall|m: int|
            0 <= m < out.len() && (#[trigger] out[m]).0 == k implies out[m] == ss[j][e] by {
            if m > 0 {
                assert(lex_lt(out[0].0, out[m].0));
                lemma_lex_trichotomy(out[0].0, out[m].0);
            }
        }
    } else {
        assert(lex_lt(kl, k));
        // The sought entry survives the advance; recurse past the leader.
        let adv = advance_equal(ss, kl);
        assert(sources_wf(adv)) by {
            assert forall|i: int|
                0 <= i < adv.len() implies entries_sorted(#[trigger] adv[i])
                && entries_keys_nonempty(adv[i]) by {
                if ss[i].len() > 0 && ss[i][0].0 == kl {
                    lemma_entries_tail(ss[i]);
                }
            }
        }
        let e2 = if ss[j][0].0 == kl {
            e - 1
        } else {
            e
        };
        assert(e2 >= 0) by {
            if ss[j][0].0 == kl && e == 0 {
                lemma_lex_trichotomy(kl, k);
            }
        }
        assert(adv[j][e2] == ss[j][e]) by {
            if ss[j][0].0 == kl {
                assert(adv[j] == ss[j].drop_first());
                assert(adv[j][e2] == ss[j][e2 + 1]);
            } else {
                assert(adv[j] == ss[j]);
            }
        }
        assert forall|i: int, f: int|
            0 <= i < j && 0 <= f < adv[i].len() implies (#[trigger] adv[i][f]).0 != k by {
            if ss[i].len() > 0 && ss[i][0].0 == kl {
                assert(adv[i][f] == ss[i][f + 1]);
                assert(ss[i][f + 1].0 != k);
            } else {
                assert(adv[i][f] == ss[i][f]);
            }
        }
        lemma_total_len_advance(ss, kl);
        lemma_mergedn_min_index(adv, j, e2);
        let rest = mergedn(adv);
        let w = choose|w: int| 0 <= w < rest.len() && #[trigger] rest[w] == adv[j][e2];
        assert(out[w + 1] == ss[j][e]);
        assert forall|m: int|
            0 <= m < out.len() && (#[trigger] out[m]).0 == k implies out[m] == ss[j][e] by {
            if m == 0 {
                lemma_lex_trichotomy(kl, k);
            } else {
                assert(out[m] == rest[m - 1]);
            }
        }
    }
}

/// Chains `a <= b < c <= d` into `a < d`.
proof fn lemma_lex_le_lt_transitive2(a: Seq<u8>, b: Seq<u8>, c: Seq<u8>, d: Seq<u8>)
    requires
        lex_le(a, b),
        lex_lt(b, c),
        lex_le(c, d),
    ensures
        lex_lt(a, d),
{
    crate::keys::lemma_lex_le_lt_transitive(a, b, c);
    lemma_lex_lt_le_transitive(a, c, d);
}

/// Merges many iterators of the same type, indexed by input order. Inputs
/// stay at their positions; `current` points at the leader.
pub struct MergeIterator<I: StorageIterator> {
    iters: Vec<Box<I>>,
    current: usize,
}

impl<I: StorageIterator> MergeIterator<I> {
    /// The streams left in the inputs.
    pub closed spec fn sources(&self) -> Seq<Seq<(Seq<u8>, Seq<u8>)>> {
        sources_of(self.iters@)
    }

    /// Invariant: every input is sound, and `current` is the leader as long
    /// as any input still holds entries.
    pub closed spec fn wf(&self) -> bool {
        &&& forall|i: int| 0 <= i < self.iters@.len() ==> (#[trigger] self.iters@[i]).inv()
        &&& self.iters@.len() > 0 ==> self.current < self.iters@.len()
        &&& (exists|j: int| leads(self.sources(), j)) ==> leads(
            self.sources(),
            self.current as int,
        )
    }

    /// While any source is non-exhausted the merge exposes the leader's head.
    proof fn lemma_leader_is_head(&self)
        requires
            self.wf(),
            mergedn(self.sources()).len() > 0,
        ensures
            self.iters@.len() > 0,
            self.current < self.iters@.len(),
            self.sources()[self.current as int].len() > 0,
            mergedn(self.sources())[0] == self.sources()[self.current as int][0],
    {
        let ss = self.sources();
        assert(exists|j: int| leads(ss, j)) by {
            if !(exists|j: int| leads(ss, j)) {
                assert(mergedn(ss) =~= Seq::<(Seq<u8>, Seq<u8>)>::empty());
            }
        }
        let j = choose|j: int| leads(ss, j);
        assert(leads(ss, self.current as int));
        lemma_leads_unique(ss, j, self.current as int);
        assert(mergedn(ss) == seq![ss[j][0]] + mergedn(advance_equal(ss, ss[j][0].0)));
    }

    /// The merge is exhausted exactly when no source still holds an entry.
    proof fn lemma_validity(&self)
        requires
            self.wf(),
        ensures
            (mergedn(self.sources()).len() > 0) == (self.iters@.len() > 0
                && self.sources()[self.current as int].len() > 0),
    {
        let ss = self.sources();
        if self.iters@.len() > 0 && ss[self.current as int].len() > 0 {
            lemma_leader_exists(ss, self.current as int);
            let j = choose|j: int| leads(ss, j);
            assert(mergedn(ss) == seq![ss[j][0]] + mergedn(advance_equal(ss, ss[j][0].0)));
        } else {
            if mergedn(ss).len() > 0 {
                assert(exists|j: int| leads(ss, j)) by {
                    if !(exists|j: int| leads(ss, j)) {
                        assert(mergedn(ss) =~= Seq::<(Seq<u8>, Seq<u8>)>::empty());
                    }
                }
                assert(leads(ss, self.current as int));
            }
        }
    }

    /// Scans for the leader: the valid input with the smallest head key,
    /// ties broken towards the smallest index.
    fn find_leader(iters: &Vec<Box<I>>) -> (r: usize)
        requires
            forall|i: int| 0 <= i < iters@.len() ==> (#[trigger] iters@[i]).inv(),
        ensures
            iters@.len() > 0 ==> r < iters@.len(),
            (exists|j: int| leads(sources_of(iters@), j)) ==> leads(
                sources_of(iters@),
                r as int,
            ),
    {
        let ghost ss = sources_of(iters@);
        let n = iters.len();
        let mut best: usize = 0;
        let mut have: bool = false;
        let mut p: usize = 0;
        while p < n
            invariant
                p <= n,
                n == iters@.len(),
                ss == sources_of(iters@),
                forall|i: int| 0 <= i < iters@.len() ==> (#[trigger] iters@[i]).inv(),
                !have ==> best == 0,
                !have ==> forall|i: int| 0 <= i < p as int ==> (#[trigger] ss[i]).len() == 0,
                have ==> best < p && ss[best as int].len() > 0,
                have ==> forall|i: int|
                    0 <= i < p as int && (#[trigger] ss[i]).len() > 0 ==> lex_le(
                        ss[best as int][0].0,
                        ss[i][0].0,
                    ),
                have ==> forall|i: int|
                    0 <= i < p as int && (#[trigger] ss[i]).len() > 0 && ss[i][0].0
                        == ss[best as int][0].0 ==> best as int <= i,
            decreases n - p,
        {
            if iters[p].is_valid() {
                if !have {
                    best = p;
                    have = true;
                } else {
                    let c = compare_keys(iters[p].key(), iters[best].key());
                    proof {
                        lemma_lex_trichotomy(ss[p as int][0].0, ss[best as int][0].0);
                    }
                    if matches!(c, KeyOrdering::Less) {
                        proof {
                            assert forall|i: int|
                                0 <= i < p as int && (#[trigger] ss[i]).len() > 0 implies lex_lt(
                                ss[p as int][0].0,
                                ss[i][0].0,
                            ) by {
                                lemma_lex_lt_le_transitive(
                                    ss[p as int][0].0,
                                    ss[best as int][0].0,
                                    ss[i][0].0,
                                );
                            }
                            assert forall|i: int|
                                0 <= i < p as int && (#[trigger] ss[i]).len() > 0 implies ss[i][0].0
                                != ss[p as int][0].0 by {
                                lemma_lex_trichotomy(ss[p as int][0].0, ss[i][0].0);
                            }
                        }
                        best = p;
                    }
                }
            }
            p += 1;
        }
        proof {
            if exists|j: int| leads(ss, j) {
                let j = choose|j: int| leads(ss, j);
                assert(ss[j].len() > 0);
                assert(have);
                assert(leads(ss, best as int));
            }
        }
        best
    }

    /// Builds the merge of the inputs, in index order.
    pub fn create(iters: Vec<Box<I>>) -> (r: MergeIterator<I>)
        requires
            forall|i: int| 0 <= i < iters@.len() ==> (#[trigger] iters@[i]).inv(),
        ensures
            r.inv(),
            r.remaining() == mergedn(sources_of(iters@)),
    {
        let current = Self::find_leader(&iters);
        MergeIterator { iters, current }
    }
}

impl<I: StorageIterator> StorageIterator for MergeIterator<I> {
    closed spec fn inv(&self) -> bool {
        self.wf()
    }

    closed spec fn remaining(&self) -> Seq<(Seq<u8>, Seq<u8>)> {
        mergedn(self.sources())
    }

    proof fn lemma_remaining_sorted(&self) {
        assert forall|i: int|
            0 <= i < self.sources().len() implies entries_sorted(#[trigger] self.sources()[i])
            && entries_keys_nonempty(self.sources()[i]) by {
            self.iters@[i].lemma_remaining_sorted();
        }
        lemma_mergedn_sorted(self.sources());
    }

    fn key(&self) -> (k: &[u8]) {
        proof {
            self.lemma_leader_is_head();
        }
        self.iters[self.current].key()
    }

    fn value(&self) -> (v: &[u8]) {
        proof {
            self.lemma_leader_is_head();
        }
        self.iters[self.current].value()
    }

    fn is_valid(&self) -> (r: bool) {
        proof {
            self.lemma_validity();
        }
        if self.iters.len() == 0 {
            false
        } else {
            self.iters[self.current].is_valid()
        }
    }

    /// On an error the failing source leaves the merge set at once; every
    /// other source keeps its stream, except those already advanced past the
    /// emitted key, so no data of the others is dropped.
    fn next(&mut self) -> (r: Result<(), LsmError>)
        ensures
            r is Err ==> exists|q: int|
                0 <= q < old(self).sources().len() && final(self).sources() == advance_equal_upto(
                    old(self).sources(),
                    old(self).remaining()[0].0,
                    q,
                ).remove(q),
    {
        proof {
            self.lemma_leader_is_head();
        }
        let ghost ss = self.sources();
        let ghost old_cur = self.current as int;
        let ghost k_spec = ss[old_cur][0].0;
        let cur_key = self.iters[self.current].key();
        let key_now = copy_range(cur_key, 0, cur_key.len());
        proof {
            assert(key_now@ =~= k_spec);
        }
        let n = self.iters.len();
        let mut p: usize = 0;
        while p < n
            invariant
                p <= n,
                n == self.iters@.len(),
                ss.len() == n as int,
                ss == old(self).sources(),
                k_spec == old(self).remaining()[0].0,
                key_now@ == k_spec,
                forall|i: int| 0 <= i < self.iters@.len() ==> (#[trigger] self.iters@[i]).inv(),
                forall|i: int| p as int <= i < n as int ==> #[trigger] self.sources()[i] == ss[i],
                forall|i: int|
                    0 <= i < p as int ==> #[trigger] self.sources()[i] == advance_equal(
                        ss,
                        k_spec,
                    )[i],
            decreases n - p,
        {
            let ghost pre = self.iters@;
            proof {
                assert(self.sources() == sources_of(pre));
                assert(self.sources()[p as int] == ss[p as int]);
                assert(sources_of(pre)[p as int] == pre[p as int].remaining());
                assert(forall|i: int|
                    0 <= i < p as int ==> #[trigger] sources_of(pre)[i] == advance_equal(
                        ss,
                        k_spec,
                    )[i]);
            }
            let valid_p = self.iters[p].is_valid();
            let mut advance = false;
            if valid_p {
                let c = compare_keys(self.iters[p].key(), key_now.as_slice());
                advance = matches!(c, KeyOrdering::Equal);
            }
            proof {
                assert(valid_p == (ss[p as int].len() > 0));
                assert(advance == (ss[p as int].len() > 0 && ss[p as int][0].0 == k_spec));
            }
            if advance {
                let mut it = self.iters.remove(p);
                proof {
                    assert(it == pre[p as int]);
                    assert(it.remaining() == ss[p as int]);
                }
                let res = it.next();
                if let Err(e) = res {
                    // The failing source leaves the merge set at once, and a
                    // new leader is elected, so the read does not livelock.
                    proof {
                        assert(self.iters@ == pre.remove(p as int));
                        assert forall|i: int|
                            0 <= i < self.sources().len() implies #[trigger] self.sources()[i]
                            == advance_equal_upto(ss, k_spec, p as int).remove(p as int)[i] by {
                            if i < p as int {
                                assert(self.iters@[i] == pre[i]);
                                assert(sources_of(pre)[i] == advance_equal(ss, k_spec)[i]);
                            } else {
                                assert(self.iters@[i] == pre[i + 1]);
                                assert(sources_of(pre)[i + 1] == ss[i + 1]);
                            }
                        }
                        assert(self.sources() =~= advance_equal_upto(ss, k_spec, p as int).remove(
                            p as int,
                        ));
                    }
                    let leader = Self::find_leader(&self.iters);
                    self.current = leader;
                    return Err(e);
                }
                let ghost it_post = it;
                self.iters.insert(p, it);
                proof {
                    assert(self.iters@ =~= pre.update(p as int, it_post));
                    assert(self.iters@[p as int] == it_post);
                    assert forall|i: int|
                        0 <= i < n as int && i != p as int implies #[trigger] self.sources()[i]
                        == sources_of(pre)[i] by {
                        assert(self.iters@[i] == pre[i]);
                    }
                    assert(it_post.remaining() == ss[p as int].drop_first());
                    assert(self.sources()[p as int] == ss[p as int].drop_first());
                }
            }
            proof {
                assert forall|i: int|
                    0 <= i < p as int + 1 implies #[trigger] self.sources()[i] == advance_equal(
                    ss,
                    k_spec,
                )[i] by {
                    if i < p as int {
                        assert(self.sources()[i] == sources_of(pre)[i]);
                        assert(sources_of(pre)[i] == advance_equal(ss, k_spec)[i]);
                    } else {
                        if ss[i].len() > 0 && ss[i][0].0 == k_spec {
                            assert(self.sources()[i] == ss[i].drop_first());
                        } else {
                            assert(self.sources()[i] == ss[i]);
                        }
                    }
                }
                assert forall|i: int|
                    p as int + 1 <= i < n as int implies #[trigger] self.sources()[i] == ss[i] by {
                    assert(self.sources()[i] == sources_of(pre)[i]);
                }
            }
            p += 1;
        }
        proof {
            assert(self.sources() =~= advance_equal(ss, k_spec));
        }
        let leader = Self::find_leader(&self.iters);
        self.current = leader;
        proof {
            assert(exists|j: int| leads(ss, j)) by {
                if !(exists|j: int| leads(ss, j)) {
                    assert(mergedn(ss) =~= Seq::<(Seq<u8>, Seq<u8>)>::empty());
                }
            }
            let j = choose|j: int| leads(ss, j);
            assert(leads(ss, old_cur));
            lemma_leads_unique(ss, j, old_cur);
            assert(mergedn(ss) == seq![ss[old_cur][0]] + mergedn(advance_equal(ss, k_spec)));
            assert(mergedn(ss).drop_first() =~= mergedn(advance_equal(ss, k_spec)));
        }
        Ok(())
    }
}

} // verus!

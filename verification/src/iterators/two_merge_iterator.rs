//! Merges two iterators of different types into one sorted stream. When both
//! hold the same key, the entry from `A` is produced and `B`'s duplicate is
//! skipped.

use vstd::prelude::*;

use crate::error::LsmError;
use crate::iterators::StorageIterator;
use crate::keys::{
    compare_keys, entries_keys_nonempty, entries_sorted, lemma_entries_tail,
    lemma_lex_trichotomy, lemma_lex_lt_transitive, lex_lt, KeyOrdering,
};

verus! {

/// The sorted merge of two sorted entry streams, preferring `a` on equal
/// keys and producing each key once.
pub open spec fn merged2(
    a: Seq<(Seq<u8>, Seq<u8>)>,
    b: Seq<(Seq<u8>, Seq<u8>)>,
) -> Seq<(Seq<u8>, Seq<u8>)>
    decreases a.len() + b.len(),
{
    if a.len() == 0 && b.len() == 0 {
        Seq::empty()
    } else if b.len() == 0 {
        seq![a[0]] + merged2(a.drop_first(), b)
    } else if a.len() == 0 {
        seq![b[0]] + merged2(a, b.drop_first())
    } else if lex_lt(a[0].0, b[0].0) {
        seq![a[0]] + merged2(a.drop_first(), b)
    } else if lex_lt(b[0].0, a[0].0) {
        seq![b[0]] + merged2(a, b.drop_first())
    } else {
        seq![a[0]] + merged2(a.drop_first(), b.drop_first())
    }
}

/// Merging with an empty stream yields the other stream.
pub proof fn lemma_merged2_empty(a: Seq<(Seq<u8>, Seq<u8>)>)
    ensures
        merged2(a, Seq::empty()) == a,
        merged2(Seq::empty(), a) == a,
    decreases a.len(),
{
    if a.len() == 0 {
        assert(merged2(a, Seq::empty()) =~= a);
        assert(merged2(Seq::empty(), a) =~= a);
    } else {
        lemma_merged2_empty(a.drop_first());
        assert(merged2(a, Seq::empty()) =~= seq![a[0]] + a.drop_first());
        assert(merged2(Seq::empty(), a) =~= seq![a[0]] + a.drop_first());
        assert(seq![a[0]] + a.drop_first() =~= a);
    }
}

/// The merge of two sorted streams is sorted with non-empty keys, and its
/// head is the head of one of its inputs.
pub proof fn lemma_merged2_sorted(a: Seq<(Seq<u8>, Seq<u8>)>, b: Seq<(Seq<u8>, Seq<u8>)>)
    requires
        entries_sorted(a),
        entries_sorted(b),
        entries_keys_nonempty(a),
        entries_keys_nonempty(b),
    ensures
        entries_sorted(merged2(a, b)),
        entries_keys_nonempty(merged2(a, b)),
        merged2(a, b).len() > 0 ==> (a.len() > 0 && merged2(a, b)[0] == a[0]) || (b.len() > 0
            && merged2(a, b)[0] == b[0]),
    decreases a.len() + b.len(),
{
    let m = merged2(a, b);
    if a.len() == 0 && b.len() == 0 {
        assert(m =~= Seq::<(Seq<u8>, Seq<u8>)>::empty());
    } else {
        if a.len() > 0 && b.len() > 0 {
            lemma_lex_trichotomy(a[0].0, b[0].0);
        }
        let a_first = if b.len() == 0 {
            true
        } else if a.len() == 0 {
            false
        } else if lex_lt(a[0].0, b[0].0) {
            true
        } else if lex_lt(b[0].0, a[0].0) {
            false
        } else {
            true
        };
        let h = if a_first {
            a[0]
        } else {
            b[0]
        };
        let both = a.len() > 0 && b.len() > 0 && a[0].0 == b[0].0;
        let a2 = if a_first || both {
            if a.len() > 0 {
                lemma_entries_tail(a);
                a.drop_first()
            } else {
                a
            }
        } else {
            a
        };
        let b2 = if !a_first || both {
            lemma_entries_tail(b);
            b.drop_first()
        } else {
            b
        };
        let rest = merged2(a2, b2);
        lemma_merged2_sorted(a2, b2);
        assert(m == seq![h] + rest);
        assert(m[0] == h);
        // The head precedes everything in the rest of the merge.
        assert(rest.len() > 0 ==> lex_lt(h.0, rest[0].0)) by {
            if rest.len() > 0 {
                if a2.len() > 0 && rest[0] == a2[0] {
                    if a_first || both {
                        assert(a2[0] == a[1]);
                        assert(lex_lt(a[0].0, a[1].0));
                        if !a_first {
                            lemma_lex_lt_transitive(b[0].0, a[0].0, a[1].0);
                        }
                    } else {
                        assert(a2 == a);
                        assert(lex_lt(b[0].0, a[0].0));
                    }
                } else {
                    assert(b2.len() > 0 && rest[0] == b2[0]);
                    if !a_first || both {
                        assert(b2[0] == b[1]);
                        assert(lex_lt(b[0].0, b[1].0));
                        if a_first {
                            if both {
                                assert(a[0].0 == b[0].0);
                            } else {
                                lemma_lex_lt_transitive(a[0].0, b[0].0, b[1].0);
                            }
                        }
                    } else {
                        assert(b2 == b);
                        assert(lex_lt(a[0].0, b[0].0));
                    }
                }
            }
        }
        assert forall|i: int, j: int| 0 <= i < j < m.len() implies lex_lt(
            #[trigger] m[i].0,
            #[trigger] m[j].0,
        ) by {
            if i == 0 {
                assert(m[j] == rest[j - 1]);
                assert(lex_lt(h.0, rest[0].0));
                if j > 1 {
                    assert(lex_lt(rest[0].0, rest[j - 1].0));
                    lemma_lex_lt_transitive(h.0, rest[0].0, rest[j - 1].0);
                }
            } else {
                assert(m[i] == rest[i - 1]);
                assert(m[j] == rest[j - 1]);
                assert(lex_lt(rest[i - 1].0, rest[j - 1].0));
            }
        }
        assert forall|i: int| 0 <= i < m.len() implies (#[trigger] m[i]).0.len() > 0 by {
            if i > 0 {
                assert(m[i] == rest[i - 1]);
            }
        }
    }
}

/// Law: when both streams contain a key, the merge yields that key exactly
/// once, with the value from `a`.
pub proof fn lemma_merged2_prefers_a(
    a: Seq<(Seq<u8>, Seq<u8>)>,
    b: Seq<(Seq<u8>, Seq<u8>)>,
    i: int,
    j: int,
)
    requires
        entries_sorted(a),
        entries_sorted(b),
        entries_keys_nonempty(a),
        entries_keys_nonempty(b),
        0 <= i < a.len(),
        0 <= j < b.len(),
        a[i].0 == b[j].0,
    ensures
        exists|m: int| 0 <= m < merged2(a, b).len() && #[trigger] merged2(a, b)[m] == a[i],
        forall|m: int|
            0 <= m < merged2(a, b).len() && (#[trigger] merged2(a, b)[m]).0 == a[i].0 ==> merged2(
                a,
                b,
            )[m] == a[i],
    decreases a.len() + b.len(),
{
    let k = a[i].0;
    let m = merged2(a, b);
    lemma_merged2_sorted(a, b);
    if i == 0 && j == 0 {
        // Equal heads: the merge emits a's head and skips b's.
        assert(m[0] == a[0]);
        assert forall|l: int|
            0 <= l < m.len() && (#[trigger] m[l]).0 == k implies m[l] == a[0] by {
            if l > 0 {
                assert(lex_lt(m[0].0, m[l].0));
                lemma_lex_trichotomy(m[0].0, m[l].0);
            }
        }
    } else {
        // Recurse past the strictly smaller head.
        let a_head_lt = i > 0;
        if a_head_lt {
            assert(lex_lt(a[0].0, k));
        }
        let b_head_lt = j > 0;
        if b_head_lt {
            assert(lex_lt(b[0].0, k));
        }
        if a.len() > 0 && b.len() > 0 {
            lemma_lex_trichotomy(a[0].0, b[0].0);
        }
        let both = a.len() > 0 && b.len() > 0 && a[0].0 == b[0].0;
        let a_first = if b.len() == 0 {
            true
        } else if a.len() == 0 {
            false
        } else if lex_lt(a[0].0, b[0].0) {
            true
        } else if lex_lt(b[0].0, a[0].0) {
            false
        } else {
            true
        };
        let h = if a_first {
            a[0]
        } else {
            b[0]
        };
        // The dropped head's key is below k.
        assert(lex_lt(h.0, k)) by {
            if a_first {
                if i > 0 {
                } else {
                    // i == 0, so j > 0 and a[0].0 == b[j].0 > b[0].0; but
                    // a_first means a[0].0 <= b[0].0 — contradiction unless
                    // the heads are not equal.
                    assert(j > 0);
                    assert(lex_lt(b[0].0, b[j].0));
                    if both {
                        assert(lex_lt(a[0].0, a[0].0));
                        lemma_lex_trichotomy(a[0].0, a[0].0);
                    } else {
                        assert(lex_lt(a[0].0, b[0].0));
                        lemma_lex_lt_transitive(a[0].0, b[0].0, b[j].0);
                    }
                }
            } else {
                if j > 0 {
                } else {
                    assert(i > 0);
                    assert(lex_lt(a[0].0, a[i].0));
                    assert(lex_lt(b[0].0, a[0].0));
                    lemma_lex_lt_transitive(b[0].0, a[0].0, a[i].0);
                }
            }
        }
        let a2 = if a_first || both {
            lemma_entries_tail(a);
            a.drop_first()
        } else {
            a
        };
        let b2 = if !a_first || both {
            lemma_entries_tail(b);
            b.drop_first()
        } else {
            b
        };
        let i2 = if a_first || both {
            i - 1
        } else {
            i
        };
        let j2 = if !a_first || both {
            j - 1
        } else {
            j
        };
        // The sought entries survive the drop: their keys are above the head.
        assert(i2 >= 0) by {
            if (a_first || both) && i == 0 {
                assert(lex_lt(h.0, a[0].0));
                if a_first {
                    assert(h == a[0]);
                    lemma_lex_trichotomy(a[0].0, a[0].0);
                } else {
                    assert(both);
                    assert(h.0 == a[0].0);
                    lemma_lex_trichotomy(h.0, a[0].0);
                }
            }
        }
        assert(j2 >= 0) by {
            if (!a_first || both) && j == 0 {
                assert(lex_lt(h.0, b[0].0));
                if !a_first {
                    lemma_lex_trichotomy(b[0].0, b[0].0);
                } else {
                    assert(both);
                    assert(h.0 == b[0].0);
                    lemma_lex_trichotomy(h.0, b[0].0);
                }
            }
        }
        assert(a2[i2] == a[i]);
        assert(b2[j2] == b[j]);
        lemma_merged2_prefers_a(a2, b2, i2, j2);
        let rest = merged2(a2, b2);
        assert(m == seq![h] + rest);
        let w = choose|w: int| 0 <= w < rest.len() && #[trigger] rest[w] == a2[i2];
        assert(m[w + 1] == a[i]);
        assert forall|l: int|
            0 <= l < m.len() && (#[trigger] m[l]).0 == k implies m[l] == a[i] by {
            if l == 0 {
                lemma_lex_trichotomy(h.0, k);
            } else {
                assert(m[l] == rest[l - 1]);
            }
        }
    }
}

/// Merges two iterators of different types. When both hold the same key the
/// merge produces it once, with the entry from `a`.
pub struct TwoMergeIterator<A: StorageIterator, B: StorageIterator> {
    a: A,
    b: B,
}

impl<A: StorageIterator, B: StorageIterator> TwoMergeIterator<A, B> {
    /// Creates the merge of `a` and `b`.
    pub fn create(a: A, b: B) -> (r: Result<TwoMergeIterator<A, B>, LsmError>)
        requires
            a.inv(),
            b.inv(),
        ensures
            r is Ok,
            r->Ok_0.inv(),
            r->Ok_0.remaining() == merged2(a.remaining(), b.remaining()),
    {
        Ok(TwoMergeIterator { a, b })
    }

    /// The entry from `a` is exposed when `a` is valid and `b` is not
    /// strictly smaller.
    fn prefer_a(&self) -> (r: bool)
        requires
            self.inv(),
            self.remaining().len() > 0,
        ensures
            r ==> self.a.remaining().len() > 0 && self.remaining()[0] == self.a.remaining()[0],
            !r ==> self.b.remaining().len() > 0 && self.remaining()[0] == self.b.remaining()[0],
    {
        proof {
            self.a.lemma_remaining_sorted();
            self.b.lemma_remaining_sorted();
            lemma_merged2_sorted(self.a.remaining(), self.b.remaining());
            if self.a.remaining().len() == 0 && self.b.remaining().len() == 0 {
                assert(self.remaining() =~= Seq::<(Seq<u8>, Seq<u8>)>::empty());
            }
        }
        if self.a.is_valid() && self.b.is_valid() {
            let cmp = compare_keys(self.a.key(), self.b.key());
            proof {
                lemma_lex_trichotomy(self.a.remaining()[0].0, self.b.remaining()[0].0);
            }
            !matches!(cmp, KeyOrdering::Greater)
        } else {
            self.a.is_valid()
        }
    }
}

impl<A: StorageIterator, B: StorageIterator> StorageIterator for TwoMergeIterator<A, B> {
    closed spec fn inv(&self) -> bool {
        self.a.inv() && self.b.inv()
    }

    closed spec fn remaining(&self) -> Seq<(Seq<u8>, Seq<u8>)> {
        merged2(self.a.remaining(), self.b.remaining())
    }

    proof fn lemma_remaining_sorted(&self) {
        self.a.lemma_remaining_sorted();
        self.b.lemma_remaining_sorted();
        lemma_merged2_sorted(self.a.remaining(), self.b.remaining());
    }

    fn key(&self) -> (k: &[u8]) {
        proof {
            self.a.lemma_remaining_sorted();
            self.b.lemma_remaining_sorted();
        }
        if self.prefer_a() {
            self.a.key()
        } else {
            self.b.key()
        }
    }

    fn value(&self) -> (v: &[u8]) {
        proof {
            self.a.lemma_remaining_sorted();
            self.b.lemma_remaining_sorted();
        }
        if self.prefer_a() {
            self.a.value()
        } else {
            self.b.value()
        }
    }

    fn is_valid(&self) -> (r: bool) {
        proof {
            if self.a.remaining().len() == 0 && self.b.remaining().len() == 0 {
                assert(self.remaining() =~= Seq::<(Seq<u8>, Seq<u8>)>::empty());
            }
        }
        self.a.is_valid() || self.b.is_valid()
    }

    fn next(&mut self) -> (r: Result<(), LsmError>) {
        proof {
            self.a.lemma_remaining_sorted();
            self.b.lemma_remaining_sorted();
            if self.a.remaining().len() == 0 && self.b.remaining().len() == 0 {
                assert(self.remaining() =~= Seq::<(Seq<u8>, Seq<u8>)>::empty());
            }
        }
        let ghost ra = self.a.remaining();
        let ghost rb = self.b.remaining();
        if !self.b.is_valid() {
            proof {
                lemma_merged2_empty(ra);
                assert(rb =~= Seq::<(Seq<u8>, Seq<u8>)>::empty());
            }
            let r = self.a.next();
            proof {
                if r is Ok {
                    lemma_merged2_empty(self.a.remaining());
                    assert(self.b.remaining() =~= Seq::<(Seq<u8>, Seq<u8>)>::empty());
                }
            }
            r
        } else if !self.a.is_valid() {
            proof {
                lemma_merged2_empty(rb);
                assert(ra =~= Seq::<(Seq<u8>, Seq<u8>)>::empty());
            }
            let r = self.b.next();
            proof {
                if r is Ok {
                    lemma_merged2_empty(self.b.remaining());
                    assert(self.a.remaining() =~= Seq::<(Seq<u8>, Seq<u8>)>::empty());
                }
            }
            r
        } else {
            let cmp = compare_keys(self.a.key(), self.b.key());
            match cmp {
                KeyOrdering::Equal => {
                    let ra_res = self.a.next();
                    if let Err(e) = ra_res {
                        return Err(e);
                    }
                    let rb_res = self.b.next();
                    proof {
                        if rb_res is Ok {
                            assert(merged2(ra, rb) == seq![ra[0]] + merged2(
                                self.a.remaining(),
                                self.b.remaining(),
                            ));
                            assert(merged2(ra, rb).drop_first() =~= merged2(
                                self.a.remaining(),
                                self.b.remaining(),
                            ));
                        }
                    }
                    rb_res
                },
                KeyOrdering::Less => {
                    let r = self.a.next();
                    proof {
                        if r is Ok {
                            assert(merged2(ra, rb) == seq![ra[0]] + merged2(
                                self.a.remaining(),
                                rb,
                            ));
                            assert(merged2(ra, rb).drop_first() =~= merged2(
                                self.a.remaining(),
                                rb,
                            ));
                        }
                    }
                    r
                },
                KeyOrdering::Greater => {
                    let r = self.b.next();
                    proof {
                        if r is Ok {
                            assert(merged2(ra, rb) == seq![rb[0]] + merged2(
                                ra,
                                self.b.remaining(),
                            ));
                            assert(merged2(ra, rb).drop_first() =~= merged2(
                                ra,
                                self.b.remaining(),
                            ));
                        }
                    }
                    r
                },
            }
        }
    }
}

} // verus!

//! The per-state transition builder.
//!
//! While one automaton state is being constructed, a [`TempTracker`]
//! accumulates the mapping from transition key to the frontier pairs
//! reachable by consuming a character under that key.  Keys appear in
//! first-insertion order and each key's pair list keeps insertion order,
//! so the same frontier always yields the same snapshot.

use vstd::prelude::*;
use crate::model::{TChar, Snapshot, tr_insert, find_key, lemma_find_key, lemma_find_key_is};

verus! {

/// An index into the pattern, possibly one past its end.
pub type Si = usize;

/// An accumulated edit cost.
pub type Dacc = i8;

/// A list of frontier pairs.
pub type SiDaccPairs = Vec<(Si, Dacc)>;

/// View of one frontier pair as a pair of unbounded integers.
pub open spec fn pv(pr: (usize, i8)) -> (int, int) {
    (pr.0 as int, pr.1 as int)
}

/// View of a list of frontier pairs.
pub open spec fn fv(s: Seq<(usize, i8)>) -> Seq<(int, int)> {
    s.map_values(|pr: (usize, i8)| (pr.0 as int, pr.1 as int))
}

/// View of a list of tracker entries as a transition multimap.
pub open spec fn tv(s: Seq<(TChar, SiDaccPairs)>) -> Snapshot {
    s.map_values(|e: (TChar, SiDaccPairs)| (e.0, fv(e.1@)))
}

/// Accumulates the outgoing transitions of one automaton state.
pub struct TempTracker {
    transitions: Vec<(TChar, SiDaccPairs)>,
}

impl View for TempTracker {
    type V = Snapshot;

    closed spec fn view(&self) -> Snapshot {
        tv(self.transitions@)
    }
}

/// Whether two transition keys are equal.
pub(crate) fn tchar_eq(a: TChar, b: TChar) -> (r: bool)
    ensures
        r == (a == b),
{
    match (a, b) {
        (TChar::Exact(x), TChar::Exact(y)) => x == y,
        (TChar::Wildcard, TChar::Wildcard) => true,
        _ => false,
    }
}

impl TempTracker {
    /// Creates an empty tracker.
    pub fn new() -> (t: Self)
        ensures
            t@ == Seq::<(TChar, Seq<(int, int)>)>::empty(),
    {
        let t = TempTracker { transitions: Vec::new() };
        proof {
            assert(t@ =~= Seq::<(TChar, Seq<(int, int)>)>::empty());
        }
        t
    }

    /// Index of the entry with key `key`, or the number of entries.
    fn find_slot(&self, key: TChar) -> (idx: usize)
        ensures
            idx as int == find_key(self@, key),
            idx <= self.transitions@.len(),
            self@.len() == self.transitions@.len(),
    {
        let n = self.transitions.len();
        let mut idx: usize = 0;
        while idx < n
            invariant
                idx <= n,
                n == self.transitions@.len(),
                forall|j: int| 0 <= j < idx ==> (#[trigger] self.transitions@[j]).0 != key,
            decreases n - idx,
        {
            let e = self.transitions[idx].0;
            if tchar_eq(e, key) {
                proof {
                    assert(self@[idx as int].0 == key);
                    assert forall|j: int| 0 <= j < idx implies self@[j].0 != key by {
                        assert(self@[j].0 == self.transitions@[j].0);
                    }
                    lemma_find_key_is(self@, key, idx as int);
                }
                return idx;
            }
            idx = idx + 1;
        }
        proof {
            assert forall|j: int| 0 <= j < n implies self@[j].0 != key by {
                assert(self@[j].0 == self.transitions@[j].0);
            }
            lemma_find_key_is(self@, key, n as int);
        }
        idx
    }

    /// Records `pair` under `key`, preserving insertion order.
    pub fn add(&mut self, key: TChar, pair: (Si, Dacc))
        ensures
            final(self)@ == tr_insert(old(self)@, key, pv(pair)),
    {
        let idx = self.find_slot(key);
        let ghost m0 = self@;
        if idx < self.transitions.len() {
            let ghost oldpairs = self.transitions@[idx as int].1@;
            self.transitions[idx].1.push(pair);
            proof {
                lemma_find_key(m0, key);
                assert(m0[idx as int].0 == key);
                assert(m0[idx as int].1 == fv(oldpairs));
                assert(self.transitions@[idx as int].1@ == oldpairs.push(pair));
                assert(fv(oldpairs.push(pair)) =~= fv(oldpairs).push(pv(pair)));
                assert(self@ =~~= tr_insert(m0, key, pv(pair)));
            }
        } else {
            let mut v: SiDaccPairs = Vec::new();
            v.push(pair);
            self.transitions.push((key, v));
            proof {
                assert(self@ =~~= tr_insert(m0, key, pv(pair)));
            }
        }
    }

    /// Returns the accumulated mapping as a list of `(key, pairs)` entries
    /// in first-insertion order: the state's snapshot.
    pub fn key(&self) -> (r: Vec<(TChar, SiDaccPairs)>)
        ensures
            tv(r@) == self@,
            r@.len() == self@.len(),
            forall|j: int| 0 <= j < r@.len() ==> (#[trigger] r@[j]).0 == self@[j].0,
            forall|j: int| 0 <= j < r@.len() ==> fv((#[trigger] r@[j]).1@) == self@[j].1,
    {
        let n = self.transitions.len();
        let mut r: Vec<(TChar, SiDaccPairs)> = Vec::new();
        let mut i: usize = 0;
        while i < n
            invariant
                i <= n,
                n == self.transitions@.len(),
                r@.len() == i,
                forall|j: int|
                    0 <= j < i ==> (#[trigger] r@[j]).0 == self.transitions@[j].0
                        && r@[j].1@ == self.transitions@[j].1@,
            decreases n - i,
        {
            let key = self.transitions[i].0;
            let src_pairs = &self.transitions[i].1;
            let m = src_pairs.len();
            let mut pairs: SiDaccPairs = Vec::new();
            let mut j: usize = 0;
            while j < m
                invariant
                    j <= m,
                    m == src_pairs@.len(),
                    pairs@ == src_pairs@.take(j as int),
                decreases m - j,
            {
                pairs.push(src_pairs[j]);
                proof {
                    assert(pairs@ =~= src_pairs@.take(j + 1));
                }
                j = j + 1;
            }
            proof {
                assert(pairs@ =~= src_pairs@);
            }
            r.push((key, pairs));
            i = i + 1;
        }
        proof {
            assert(tv(r@) =~~= self@);
        }
        r
    }
}

} // verus!

//! The mathematical model of the automaton.
//!
//! A state of the automaton is a *frontier*: a sequence of `(s, d)` pairs,
//! where `s` is a position in the pattern (possibly one past its end) and
//! `d` is the number of edits already spent reaching that position.  For a
//! frontier, the construction emits transitions pair by pair, rule by rule
//! ([`emit_pair`]), and gathers them into an insertion-ordered multimap
//! from transition key to the pairs of the successor frontier
//! ([`snapshot_of`]).  Recognition ([`dfa_run`]) repeatedly selects from
//! that multimap — an exact key if one matches the next input character,
//! otherwise the wildcard — until the input is exhausted, and then answers
//! with the accepting flag ([`accepting_of`]) of the state reached.
//!
//! Everything here is specification; the executable construction in the
//! other modules is proved to implement exactly these functions.

use vstd::prelude::*;

verus! {

/// A transition key: a specific character, or the wildcard that matches
/// every character not matched by an exact key of the same state.
#[derive(Clone, Copy)]
pub enum TChar {
    Exact(char),
    Wildcard,
}

/// A transition multimap: keys in first-insertion order, each with the
/// frontier pairs recorded under it, in insertion order.
pub type Snapshot = Seq<(TChar, Seq<(int, int)>)>;

/// One emitted transition: a key and the frontier pair reached under it.
pub type Emission = (TChar, (int, int));

/// The exact-match key for the character at position `i` of `p`.
pub open spec fn exact_at(p: Seq<char>, i: int) -> TChar {
    TChar::Exact(p[i])
}

/// Index of the first entry of `m` whose key is `key`, or `m.len()`.
pub open spec fn find_key<X>(m: Seq<(TChar, X)>, key: TChar) -> int
    decreases m.len(),
{
    if m.len() == 0 {
        0
    } else if m[0].0 == key {
        0
    } else {
        1 + find_key(m.drop_first(), key)
    }
}

pub proof fn lemma_find_key<X>(m: Seq<(TChar, X)>, key: TChar)
    ensures
        0 <= find_key(m, key) <= m.len(),
        find_key(m, key) < m.len() ==> m[find_key(m, key)].0 == key,
        forall|j: int| 0 <= j < find_key(m, key) ==> m[j].0 != key,
    decreases m.len(),
{
    if m.len() == 0 {
    } else if m[0].0 == key {
    } else {
        lemma_find_key(m.drop_first(), key);
        assert forall|j: int| 0 <= j < find_key(m, key) implies m[j].0 != key by {
            if j > 0 {
                assert(m.drop_first()[j - 1] == m[j]);
            }
        }
    }
}

pub proof fn lemma_find_key_is<X>(m: Seq<(TChar, X)>, key: TChar, i: int)
    requires
        0 <= i <= m.len(),
        i < m.len() ==> m[i].0 == key,
        forall|j: int| 0 <= j < i ==> m[j].0 != key,
    ensures
        find_key(m, key) == i,
{
    lemma_find_key(m, key);
    let f = find_key(m, key);
    if f < i {
        assert(m[f].0 != key);
    } else if f > i {
        assert(m[i].0 != key);
    }
}

/// Records `pr` under `key`: appends to the pair list of the entry with
/// that key, or appends a fresh entry if the key is new.
pub open spec fn tr_insert(m: Snapshot, key: TChar, pr: (int, int)) -> Snapshot {
    let i = find_key(m, key);
    if i < m.len() {
        m.update(i, (key, m[i].1.push(pr)))
    } else {
        m.push((key, seq![pr]))
    }
}

/// Records a sequence of emissions in order.
pub open spec fn insert_all(m: Snapshot, es: Seq<Emission>) -> Snapshot
    decreases es.len(),
{
    if es.len() == 0 {
        m
    } else {
        insert_all(tr_insert(m, es[0].0, es[0].1), es.drop_first())
    }
}

pub proof fn lemma_insert_all_concat(m: Snapshot, e1: Seq<Emission>, e2: Seq<Emission>)
    ensures
        insert_all(m, e1 + e2) == insert_all(insert_all(m, e1), e2),
    decreases e1.len(),
{
    if e1.len() == 0 {
        assert(e1 + e2 =~= e2);
    } else {
        assert((e1 + e2)[0] == e1[0]);
        assert((e1 + e2).drop_first() =~= e1.drop_first() + e2);
        lemma_insert_all_concat(tr_insert(m, e1[0].0, e1[0].1), e1.drop_first(), e2);
    }
}

pub proof fn lemma_insert_all_push(m: Snapshot, es: Seq<Emission>, e: Emission)
    ensures
        insert_all(m, es.push(e)) == tr_insert(insert_all(m, es), e.0, e.1),
{
    assert(es.push(e) =~= es + seq![e]);
    lemma_insert_all_concat(m, es, seq![e]);
    let m1 = insert_all(m, es);
    assert(insert_all(m1, seq![e]) == tr_insert(m1, e.0, e.1)) by {
        reveal_with_fuel(insert_all, 2);
        assert(seq![e][0] == e);
        assert(seq![e].drop_first() =~= Seq::<Emission>::empty());
    }
}


pub proof fn lemma_insert_all_singleton(m: Snapshot, e: Emission)
    ensures
        insert_all(m, seq![e]) == tr_insert(m, e.0, e.1),
{
    assert(seq![e] =~= Seq::<Emission>::empty().push(e));
    lemma_insert_all_push(m, Seq::<Emission>::empty(), e);
}

/// Two key-value lists with the same keys in the same order have the same
/// first occurrence of every key.
pub proof fn lemma_find_key_same_keys<X, Y>(a: Seq<(TChar, X)>, b: Seq<(TChar, Y)>, key: TChar)
    requires
        a.len() == b.len(),
        forall|j: int| 0 <= j < a.len() ==> (#[trigger] a[j]).0 == b[j].0,
    ensures
        find_key(a, key) == find_key(b, key),
{
    lemma_find_key(a, key);
    let f = find_key(a, key);
    assert forall|j: int| 0 <= j < f implies b[j].0 != key by {
        assert(a[j].0 != key);
    }
    lemma_find_key_is(b, key, f);
}

/// Emissions of the deletion-lookahead rule for the single offset `off`:
/// when the character `off` positions ahead differs from the one at `s`,
/// that character is recorded as a lookahead match, an insertion and a
/// substitution.
pub open spec fn emit_at(p: Seq<char>, k: int, s: int, d: int, off: int) -> Seq<Emission> {
    if 0 <= s && 1 <= off && d + off <= k && s + off < p.len() && p[s + off] != p[s] {
        seq![
            (exact_at(p, s + off), (s + off + 1, d + off)),
            (exact_at(p, s + off), (s, d + 1)),
            (exact_at(p, s + off), (s + 1, d + 1)),
        ]
    } else {
        Seq::empty()
    }
}


/// Emissions of the deletion-lookahead rule for all offsets below `off`.
pub open spec fn emit_look(p: Seq<char>, k: int, s: int, d: int, off: int) -> Seq<Emission>
    decreases off,
{
    if off <= 1 {
        Seq::empty()
    } else {
        emit_look(p, k, s, d, off - 1) + emit_at(p, k, s, d, off - 1)
    }
}

/// All emissions of one frontier pair `(s, d)`, in rule order: past the
/// end of the pattern only a wildcard self-edge remains (if budget is
/// left); otherwise an exact match, the deletion lookahead, and the
/// generic insertion / substitution wildcards.
pub open spec fn emit_pair(p: Seq<char>, k: int, s: int, d: int) -> Seq<Emission> {
    if s >= p.len() {
        if d < k {
            seq![(TChar::Wildcard, (s, d + 1))]
        } else {
            Seq::empty()
        }
    } else if s < 0 {
        Seq::empty()
    } else {
        seq![(exact_at(p, s), (s + 1, d))] + emit_look(p, k, s, d, k - d + 1) + (if d < k {
            seq![(TChar::Wildcard, (s, d + 1)), (TChar::Wildcard, (s + 1, d + 1))]
        } else {
            Seq::<Emission>::empty()
        })
    }
}

/// Whether one frontier pair makes its state accepting: the pair has
/// reached the end of the pattern, or its remaining budget covers the
/// characters of the pattern that remain.
pub open spec fn acc_pair(p: Seq<char>, k: int, s: int, d: int) -> bool {
    s >= p.len() || (d < k && s + (k - d) >= p.len())
}

/// All emissions of a frontier, pair by pair in order.
pub open spec fn femit(p: Seq<char>, k: int, fr: Seq<(int, int)>) -> Seq<Emission>
    decreases fr.len(),
{
    if fr.len() == 0 {
        Seq::empty()
    } else {
        femit(p, k, fr.drop_last()) + emit_pair(p, k, fr.last().0, fr.last().1)
    }
}

/// Whether a frontier is accepting: some pair of it is.
pub open spec fn accepting_of(p: Seq<char>, k: int, fr: Seq<(int, int)>) -> bool
    decreases fr.len(),
{
    if fr.len() == 0 {
        false
    } else {
        accepting_of(p, k, fr.drop_last()) || acc_pair(p, k, fr.last().0, fr.last().1)
    }
}

/// The transition multimap of a frontier.
pub open spec fn snapshot_of(p: Seq<char>, k: int, fr: Seq<(int, int)>) -> Snapshot {
    insert_all(Seq::empty(), femit(p, k, fr))
}

/// The successor frontier for the character at position `i` of `q`: the
/// pairs under the exact key for that character if such a key is present,
/// otherwise those under the wildcard.
pub open spec fn sel_pairs(m: Snapshot, q: Seq<char>, i: int) -> Option<Seq<(int, int)>> {
    let e = find_key(m, exact_at(q, i));
    if e < m.len() {
        Some(m[e].1)
    } else {
        let w = find_key(m, TChar::Wildcard);
        if w < m.len() {
            Some(m[w].1)
        } else {
            None
        }
    }
}

/// Runs the automaton from a state given by its accepting flag and its
/// transition multimap.
pub open spec fn snap_run(p: Seq<char>, k: int, acc: bool, m: Snapshot, q: Seq<char>) -> bool
    decreases q.len(),
{
    if q.len() == 0 {
        acc
    } else {
        match sel_pairs(m, q, 0) {
            Option::None => false,
            Option::Some(fr2) => snap_run(
                p,
                k,
                accepting_of(p, k, fr2),
                snapshot_of(p, k, fr2),
                q.drop_first(),
            ),
        }
    }
}

/// Runs the automaton from a frontier on input `q`: true iff the run
/// consumes all of `q` and ends in an accepting state.
pub open spec fn dfa_run(p: Seq<char>, k: int, fr: Seq<(int, int)>, q: Seq<char>) -> bool {
    snap_run(p, k, accepting_of(p, k, fr), snapshot_of(p, k, fr), q)
}

/// The start state: the pattern fully unread, no edits spent.
pub open spec fn init_frontier() -> Seq<(int, int)> {
    seq![(0int, 0int)]
}

/// Bounds every reachable frontier pair obeys at depth `x`: the position
/// is within the pattern (or one past it), the cost is within budget,
/// position plus cost is at least the number of characters consumed, and
/// the position cannot run ahead of the characters consumed by more than
/// the cost already spent.
pub open spec fn pair_ok(p: Seq<char>, k: int, x: int, pr: (int, int)) -> bool {
    0 <= pr.0 <= p.len() && 0 <= pr.1 <= k && pr.0 + pr.1 >= x && pr.0 <= x + pr.1
}

pub open spec fn frontier_ok(p: Seq<char>, k: int, x: int, fr: Seq<(int, int)>) -> bool {
    forall|i: int| 0 <= i < fr.len() ==> pair_ok(p, k, x, #[trigger] fr[i])
}

pub open spec fn emissions_ok(p: Seq<char>, k: int, x: int, es: Seq<Emission>) -> bool {
    forall|i: int| 0 <= i < es.len() ==> pair_ok(p, k, x, (#[trigger] es[i]).1)
}

pub proof fn lemma_emissions_ok_concat(p: Seq<char>, k: int, x: int, a: Seq<Emission>, b: Seq<Emission>)
    requires
        emissions_ok(p, k, x, a),
        emissions_ok(p, k, x, b),
    ensures
        emissions_ok(p, k, x, a + b),
{
    assert forall|i: int| 0 <= i < (a + b).len() implies pair_ok(p, k, x, ((a + b)[i]).1) by {
        if i < a.len() {
            assert((a + b)[i] == a[i]);
        } else {
            assert((a + b)[i] == b[i - a.len()]);
        }
    }
}

pub proof fn lemma_emit_look_ok(p: Seq<char>, k: int, s: int, d: int, off: int, x: int)
    requires
        pair_ok(p, k, x, (s, d)),
        s < p.len(),
    ensures
        emissions_ok(p, k, x + 1, emit_look(p, k, s, d, off)),
    decreases off,
{
    if off <= 1 {
    } else {
        lemma_emit_look_ok(p, k, s, d, off - 1, x);
        let ea = emit_at(p, k, s, d, off - 1);
        assert forall|i: int| 0 <= i < ea.len() implies pair_ok(p, k, x + 1, (ea[i]).1) by {
            assert(ea[0].1 == (s + off, d + off - 1));
            assert(ea[1].1 == (s, d + 1));
            assert(ea[2].1 == (s + 1, d + 1));
        }
        lemma_emissions_ok_concat(p, k, x + 1, emit_look(p, k, s, d, off - 1), ea);
    }
}

pub proof fn lemma_emit_pair_ok(p: Seq<char>, k: int, s: int, d: int, x: int)
    requires
        pair_ok(p, k, x, (s, d)),
    ensures
        emissions_ok(p, k, x + 1, emit_pair(p, k, s, d)),
{
    if s < p.len() {
        lemma_emit_look_ok(p, k, s, d, k - d + 1, x);
        let c = p[s];
        let e1 = seq![(TChar::Exact(c), (s + 1, d))];
        let e3 = if d < k {
            seq![(TChar::Wildcard, (s, d + 1)), (TChar::Wildcard, (s + 1, d + 1))]
        } else {
            Seq::<Emission>::empty()
        };
        assert forall|i: int| 0 <= i < e1.len() implies pair_ok(p, k, x + 1, (e1[i]).1) by {
            assert(e1[0].1 == (s + 1, d));
        }
        assert forall|i: int| 0 <= i < e3.len() implies pair_ok(p, k, x + 1, (e3[i]).1) by {
            if d < k {
                assert(e3[0].1 == (s, d + 1));
                assert(e3[1].1 == (s + 1, d + 1));
            }
        }
        lemma_emissions_ok_concat(p, k, x + 1, e1, emit_look(p, k, s, d, k - d + 1));
        lemma_emissions_ok_concat(p, k, x + 1, e1 + emit_look(p, k, s, d, k - d + 1), e3);
    } else {
        let e0 = emit_pair(p, k, s, d);
        assert forall|i: int| 0 <= i < e0.len() implies pair_ok(p, k, x + 1, (e0[i]).1) by {
            assert(d < k);
            assert(e0[0].1 == (s, d + 1));
        }
    }
}

pub proof fn lemma_femit_ok(p: Seq<char>, k: int, x: int, fr: Seq<(int, int)>)
    requires
        frontier_ok(p, k, x, fr),
    ensures
        emissions_ok(p, k, x + 1, femit(p, k, fr)),
    decreases fr.len(),
{
    if fr.len() == 0 {
    } else {
        assert(frontier_ok(p, k, x, fr.drop_last()));
        lemma_femit_ok(p, k, x, fr.drop_last());
        assert(pair_ok(p, k, x, fr.last()));
        lemma_emit_pair_ok(p, k, fr.last().0, fr.last().1, x);
        lemma_emissions_ok_concat(
            p,
            k,
            x + 1,
            femit(p, k, fr.drop_last()),
            emit_pair(p, k, fr.last().0, fr.last().1),
        );
    }
}

/// Bounds on every pair stored anywhere in a transition multimap.
pub open spec fn snap_pairs_ok(p: Seq<char>, k: int, x: int, m: Snapshot) -> bool {
    forall|i: int, l: int|
        0 <= i < m.len() && 0 <= l < m[i].1.len() ==> pair_ok(p, k, x, #[trigger] m[i].1[l])
}

/// Every entry of a transition multimap holds at least one pair.
pub open spec fn snap_entries_nonempty(m: Snapshot) -> bool {
    forall|i: int| 0 <= i < m.len() ==> (#[trigger] m[i]).1.len() > 0
}

/// No two entries of a transition multimap share a key.
pub open spec fn unique_keys(m: Snapshot) -> bool {
    forall|i: int, j: int| 0 <= i < j < m.len() ==> m[i].0 != m[j].0
}

pub proof fn lemma_tr_insert_wf(p: Seq<char>, k: int, x: int, m: Snapshot, key: TChar, pr: (int, int))
    requires
        snap_pairs_ok(p, k, x, m),
        snap_entries_nonempty(m),
        unique_keys(m),
        pair_ok(p, k, x, pr),
    ensures
        snap_pairs_ok(p, k, x, tr_insert(m, key, pr)),
        snap_entries_nonempty(tr_insert(m, key, pr)),
        unique_keys(tr_insert(m, key, pr)),
{
    lemma_find_key(m, key);
    let i = find_key(m, key);
    let r = tr_insert(m, key, pr);
    if i < m.len() {
        assert forall|a: int, l: int|
            0 <= a < r.len() && 0 <= l < r[a].1.len() implies pair_ok(p, k, x, r[a].1[l]) by {
            if a == i && l == m[i].1.len() {
            } else {
                assert(r[a].1[l] == m[a].1[l]);
            }
        }
    } else {
        assert forall|a: int, l: int|
            0 <= a < r.len() && 0 <= l < r[a].1.len() implies pair_ok(p, k, x, r[a].1[l]) by {
            if a < m.len() {
                assert(r[a].1[l] == m[a].1[l]);
            }
        }
        assert forall|a: int, b: int| 0 <= a < b < r.len() implies r[a].0 != r[b].0 by {
            if b == m.len() {
                assert(m[a].0 != key);
            }
        }
    }
}

pub proof fn lemma_insert_all_wf(
    p: Seq<char>,
    k: int,
    x: int,
    m: Snapshot,
    es: Seq<Emission>,
)
    requires
        snap_pairs_ok(p, k, x, m),
        snap_entries_nonempty(m),
        unique_keys(m),
        emissions_ok(p, k, x, es),
    ensures
        snap_pairs_ok(p, k, x, insert_all(m, es)),
        snap_entries_nonempty(insert_all(m, es)),
        unique_keys(insert_all(m, es)),
    decreases es.len(),
{
    if es.len() == 0 {
    } else {
        lemma_tr_insert_wf(p, k, x, m, es[0].0, es[0].1);
        assert(emissions_ok(p, k, x, es.drop_first())) by {
            assert forall|i: int|
                0 <= i < es.drop_first().len() implies pair_ok(p, k, x, (es.drop_first()[i]).1) by {
                assert(es.drop_first()[i] == es[i + 1]);
            }
        }
        lemma_insert_all_wf(p, k, x, tr_insert(m, es[0].0, es[0].1), es.drop_first());
    }
}

/// The transition multimap of a bounded frontier is itself bounded, has
/// no empty entry and no repeated key.
pub proof fn lemma_snapshot_of_wf(p: Seq<char>, k: int, x: int, fr: Seq<(int, int)>)
    requires
        frontier_ok(p, k, x, fr),
    ensures
        snap_pairs_ok(p, k, x + 1, snapshot_of(p, k, fr)),
        snap_entries_nonempty(snapshot_of(p, k, fr)),
        unique_keys(snapshot_of(p, k, fr)),
{
    lemma_femit_ok(p, k, x, fr);
    lemma_insert_all_wf(p, k, x + 1, Seq::empty(), femit(p, k, fr));
}

} // verus!


verus! {

/// Whether the multimap has an entry for `key` whose pairs include `pr`.
pub open spec fn has_pair(m: Snapshot, key: TChar, pr: (int, int)) -> bool {
    let f = find_key(m, key);
    f < m.len() && m[f].1.contains(pr)
}

proof fn lemma_tr_insert_has_pair(m: Snapshot, key: TChar, pr: (int, int))
    ensures
        has_pair(tr_insert(m, key, pr), key, pr),
{
    lemma_find_key(m, key);
    let i = find_key(m, key);
    let r = tr_insert(m, key, pr);
    if i < m.len() {
        assert forall|j: int| 0 <= j < r.len() implies r[j].0 == m[j].0 by {
            if j != i {
                assert(r[j] == m[j]);
            }
        }
        lemma_find_key_is(r, key, i);
        assert(r[i].1[m[i].1.len() as int] == pr);
    } else {
        assert forall|j: int| 0 <= j < i implies r[j].0 != key by {
            assert(r[j] == m[j]);
        }
        lemma_find_key_is(r, key, i);
        assert(r[i].1[0] == pr);
    }
}

proof fn lemma_tr_insert_preserves(m: Snapshot, key: TChar, pr: (int, int), k2: TChar, p2: (int, int))
    requires
        has_pair(m, key, pr),
    ensures
        has_pair(tr_insert(m, k2, p2), key, pr),
{
    lemma_find_key(m, key);
    lemma_find_key(m, k2);
    let f = find_key(m, key);
    let i = find_key(m, k2);
    let r = tr_insert(m, k2, p2);
    if i < m.len() {
        assert forall|j: int| 0 <= j < r.len() implies r[j].0 == m[j].0 by {
            if j != i {
                assert(r[j] == m[j]);
            }
        }
        lemma_find_key_is(r, key, f);
        if f == i {
            let l = choose|l: int| 0 <= l < m[f].1.len() && m[f].1[l] == pr;
            assert(r[f].1[l] == pr);
        } else {
            assert(r[f] == m[f]);
        }
    } else {
        assert forall|j: int| 0 <= j < f implies r[j].0 != key by {
            assert(r[j] == m[j]);
        }
        assert(r[f] == m[f]);
        lemma_find_key_is(r, key, f);
    }
}

proof fn lemma_insert_all_preserves(m: Snapshot, es: Seq<Emission>, key: TChar, pr: (int, int))
    requires
        has_pair(m, key, pr),
    ensures
        has_pair(insert_all(m, es), key, pr),
    decreases es.len(),
{
    if es.len() == 0 {
    } else {
        lemma_tr_insert_preserves(m, key, pr, es[0].0, es[0].1);
        lemma_insert_all_preserves(tr_insert(m, es[0].0, es[0].1), es.drop_first(), key, pr);
    }
}

proof fn lemma_insert_all_contains(m: Snapshot, es: Seq<Emission>, i: int)
    requires
        0 <= i < es.len(),
    ensures
        has_pair(insert_all(m, es), es[i].0, es[i].1),
    decreases i,
{
    let m1 = tr_insert(m, es[0].0, es[0].1);
    if i == 0 {
        lemma_tr_insert_has_pair(m, es[0].0, es[0].1);
        lemma_insert_all_preserves(m1, es.drop_first(), es[0].0, es[0].1);
    } else {
        lemma_insert_all_contains(m1, es.drop_first(), i - 1);
        assert(es.drop_first()[i - 1] == es[i]);
    }
}

proof fn lemma_femit_contains(p: Seq<char>, k: int, fr: Seq<(int, int)>, i: int, e: Emission)
    requires
        0 <= i < fr.len(),
        emit_pair(p, k, fr[i].0, fr[i].1).contains(e),
    ensures
        femit(p, k, fr).contains(e),
    decreases fr.len(),
{
    if i == fr.len() - 1 {
        let a = femit(p, k, fr.drop_last());
        let b = emit_pair(p, k, fr.last().0, fr.last().1);
        let l = choose|l: int| 0 <= l < b.len() && b[l] == e;
        assert((a + b)[a.len() + l] == e);
    } else {
        lemma_femit_contains(p, k, fr.drop_last(), i, e);
        let a = femit(p, k, fr.drop_last());
        let b = emit_pair(p, k, fr.last().0, fr.last().1);
        let l = choose|l: int| 0 <= l < a.len() && a[l] == e;
        assert((a + b)[l] == e);
    }
}

proof fn lemma_accepting_of_at(p: Seq<char>, k: int, fr: Seq<(int, int)>, i: int)
    requires
        0 <= i < fr.len(),
        acc_pair(p, k, fr[i].0, fr[i].1),
    ensures
        accepting_of(p, k, fr),
    decreases fr.len(),
{
    if i == fr.len() - 1 {
    } else {
        lemma_accepting_of_at(p, k, fr.drop_last(), i);
    }
}

/// Identity: run on the pattern itself, the automaton accepts, for any
/// non-negative budget.  Along the exact-match path the frontier always
/// holds the pair `(j, 0)` after `j` characters of the pattern, and that
/// pair reaches the end of the pattern at no cost.
proof fn lemma_dfa_run_from(p: Seq<char>, k: int, fr: Seq<(int, int)>, j: int)
    requires
        0 <= k,
        0 <= j <= p.len(),
        fr.contains((j, 0int)),
    ensures
        dfa_run(p, k, fr, p.skip(j)),
    decreases p.len() - j,
{
    let i = choose|i: int| 0 <= i < fr.len() && fr[i] == (j, 0int);
    if j == p.len() {
        assert(acc_pair(p, k, j, 0));
        lemma_accepting_of_at(p, k, fr, i);
        assert(p.skip(j).len() == 0);
    } else {
        let q = p.skip(j);
        assert(q.len() > 0);
        assert(q[0] == p[j]);
        assert(q.drop_first() =~= p.skip(j + 1));
        let e = (exact_at(p, j), (j + 1, 0int));
        let ep = emit_pair(p, k, j, 0);
        assert(ep.contains(e)) by {
            let e1 = seq![(exact_at(p, j), (j + 1, 0int))];
            assert(ep == e1 + emit_look(p, k, j, 0, k + 1) + (if 0 < k {
                seq![(TChar::Wildcard, (j, 1int)), (TChar::Wildcard, (j + 1, 1int))]
            } else {
                Seq::<Emission>::empty()
            }));
            assert(ep[0] == e);
        }
        lemma_femit_contains(p, k, fr, i, e);
        let es = femit(p, k, fr);
        let l = choose|l: int| 0 <= l < es.len() && es[l] == e;
        lemma_insert_all_contains(Seq::empty(), es, l);
        let m = snapshot_of(p, k, fr);
        assert(has_pair(m, exact_at(p, j), (j + 1, 0int)));
        assert(exact_at(q, 0) == exact_at(p, j));
        let f = find_key(m, exact_at(q, 0));
        assert(sel_pairs(m, q, 0) == Some(m[f].1));
        assert(m[f].1.contains((j + 1, 0int)));
        lemma_dfa_run_from(p, k, m[f].1, j + 1);
        assert(dfa_run(p, k, m[f].1, p.skip(j + 1)));
    }
}

/// Identity: for every pattern and non-negative budget, the automaton
/// accepts the pattern itself.
pub proof fn lemma_dfa_run_identity(p: Seq<char>, k: int)
    requires
        0 <= k,
    ensures
        dfa_run(p, k, init_frontier(), p),
{
    assert(init_frontier()[0] == (0int, 0int));
    assert(init_frontier().contains((0int, 0int)));
    lemma_dfa_run_from(p, k, init_frontier(), 0);
    assert(p.skip(0) =~= p);
}

} // verus!

verus! {

/// On empty input the automaton accepts exactly when the whole pattern
/// fits in the budget.
pub proof fn lemma_dfa_run_empty_input(p: Seq<char>, k: int)
    requires
        0 <= k,
    ensures
        dfa_run(p, k, init_frontier(), Seq::<char>::empty()) == (p.len() <= k),
{
    let fr = init_frontier();
    reveal_with_fuel(accepting_of, 2);
    assert(fr.drop_last() =~= Seq::<(int, int)>::empty());
    assert(fr.last() == (0int, 0int));
    assert(accepting_of(p, k, fr) == acc_pair(p, k, 0, 0));
}

/// With no budget, a frontier that stands at position `j` of the pattern
/// at no cost accepts exactly the pattern's suffix from `j`.
proof fn lemma_exact_run(p: Seq<char>, j: int, q: Seq<char>)
    requires
        0 <= j <= p.len(),
    ensures
        dfa_run(p, 0, seq![(j, 0int)], q) == (q == p.skip(j)),
    decreases q.len(),
{
    let fr = seq![(j, 0int)];
    reveal_with_fuel(accepting_of, 2);
    reveal_with_fuel(femit, 2);
    assert(fr.drop_last() =~= Seq::<(int, int)>::empty());
    assert(fr.last() == (j, 0int));
    let es = femit(p, 0, fr);
    assert(es =~= emit_pair(p, 0, j, 0));
    let m = snapshot_of(p, 0, fr);
    if q.len() == 0 {
        assert(accepting_of(p, 0, fr) == acc_pair(p, 0, j, 0));
        if j == p.len() {
            assert(q =~= p.skip(j));
        } else {
            assert(p.skip(j).len() > 0);
        }
    } else {
        if j == p.len() {
            assert(es =~= Seq::<Emission>::empty());
            assert(m =~= Seq::<(TChar, Seq<(int, int)>)>::empty());
            assert(find_key(m, exact_at(q, 0)) == 0);
            assert(find_key(m, TChar::Wildcard) == 0);
            assert(sel_pairs(m, q, 0) is None);
            assert(p.skip(j).len() == 0);
        } else {
            assert(emit_look(p, 0, j, 0, 1) =~= Seq::<Emission>::empty());
            assert(es =~= seq![(exact_at(p, j), (j + 1, 0int))]);
            lemma_insert_all_singleton(Seq::empty(), (exact_at(p, j), (j + 1, 0int)));
            assert(find_key(Seq::<(TChar, Seq<(int, int)>)>::empty(), exact_at(p, j)) == 0);
            assert(m =~~= seq![(exact_at(p, j), seq![(j + 1, 0int)])]);
            assert(p.skip(j).len() > 0);
            assert(p.skip(j)[0] == p[j]);
            assert(p.skip(j).drop_first() =~= p.skip(j + 1));
            if q[0] == p[j] {
                assert(exact_at(q, 0) == exact_at(p, j));
                assert(find_key(m, exact_at(q, 0)) == 0);
                assert(sel_pairs(m, q, 0) == Some(seq![(j + 1, 0int)]));
                lemma_exact_run(p, j + 1, q.drop_first());
                assert((q == p.skip(j)) == (q.drop_first() == p.skip(j + 1))) by {
                    if q.drop_first() == p.skip(j + 1) {
                        assert forall|x: int| 0 <= x < q.len() implies q[x] == p.skip(j)[x] by {
                            if x > 0 {
                                assert(q[x] == q.drop_first()[x - 1]);
                                assert(q.drop_first()[x - 1] == p.skip(j + 1)[x - 1]);
                            }
                        }
                        assert(q =~= p.skip(j));
                    }
                }
            } else {
                assert(exact_at(q, 0) != exact_at(p, j));
                assert(m[0].0 != exact_at(q, 0));
                assert(m[0].0 != TChar::Wildcard);
                lemma_find_key_is(m, exact_at(q, 0), 1);
                lemma_find_key_is(m, TChar::Wildcard, 1);
                assert(sel_pairs(m, q, 0) is None);
                assert(q != p.skip(j));
            }
        }
    }
}

/// With a zero budget, the automaton accepts exactly the pattern itself.
pub proof fn lemma_dfa_run_zero_budget(p: Seq<char>, q: Seq<char>)
    ensures
        dfa_run(p, 0, init_frontier(), q) == (q == p),
{
    lemma_exact_run(p, 0, q);
    assert(p.skip(0) =~= p);
}

} // verus!

verus! {

proof fn lemma_accepting_of_exists(p: Seq<char>, k: int, fr: Seq<(int, int)>)
    requires
        accepting_of(p, k, fr),
    ensures
        exists|i: int| 0 <= i < fr.len() && acc_pair(p, k, (#[trigger] fr[i]).0, fr[i].1),
    decreases fr.len(),
{
    if acc_pair(p, k, fr.last().0, fr.last().1) {
        assert(fr[fr.len() - 1] == fr.last());
    } else {
        lemma_accepting_of_exists(p, k, fr.drop_last());
        let i = choose|i: int|
            0 <= i < fr.drop_last().len() && acc_pair(
                p,
                k,
                (#[trigger] fr.drop_last()[i]).0,
                fr.drop_last()[i].1,
            );
        assert(fr[i] == fr.drop_last()[i]);
    }
}

/// A run that consumes a number of characters incompatible with the
/// pattern's length under the budget rejects: too many characters exhaust
/// every frontier, too few leave the pattern's end out of reach.
proof fn lemma_dfa_run_len(p: Seq<char>, k: int, fr: Seq<(int, int)>, x: int, q: Seq<char>)
    requires
        0 <= k,
        0 <= x,
        frontier_ok(p, k, x, fr),
        x + q.len() > p.len() + k || x + q.len() + k < p.len(),
    ensures
        !dfa_run(p, k, fr, q),
    decreases q.len(),
{
    if q.len() == 0 {
        if accepting_of(p, k, fr) {
            lemma_accepting_of_exists(p, k, fr);
            let i = choose|i: int|
                0 <= i < fr.len() && acc_pair(p, k, (#[trigger] fr[i]).0, fr[i].1);
            assert(pair_ok(p, k, x, fr[i]));
            assert(false);
        }
    } else {
        let m = snapshot_of(p, k, fr);
        match sel_pairs(m, q, 0) {
            Option::None => {},
            Option::Some(fr2) => {
                lemma_snapshot_of_wf(p, k, x, fr);
                lemma_find_key(m, exact_at(q, 0));
                lemma_find_key(m, TChar::Wildcard);
                assert(frontier_ok(p, k, x + 1, fr2)) by {
                    let f = if find_key(m, exact_at(q, 0)) < m.len() {
                        find_key(m, exact_at(q, 0))
                    } else {
                        find_key(m, TChar::Wildcard)
                    };
                    assert(fr2 == m[f].1);
                    assert forall|l: int|
                        0 <= l < fr2.len() implies pair_ok(p, k, x + 1, #[trigger] fr2[l]) by {
                        assert(snap_pairs_ok(p, k, x + 1, m));
                    }
                }
                lemma_dfa_run_len(p, k, fr2, x + 1, q.drop_first());
            },
        }
    }
}

/// Inputs whose length differs from the pattern's by more than the budget
/// are rejected.
pub proof fn lemma_dfa_run_length_filter(p: Seq<char>, k: int, q: Seq<char>)
    requires
        0 <= k,
        q.len() > p.len() + k || q.len() + k < p.len(),
    ensures
        !dfa_run(p, k, init_frontier(), q),
{
    assert forall|i: int|
        0 <= i < init_frontier().len() implies pair_ok(p, k, 0, #[trigger] init_frontier()[i]) by {
        assert(init_frontier()[i] == (0int, 0int));
    }
    lemma_dfa_run_len(p, k, init_frontier(), 0, q);
}

} // verus!

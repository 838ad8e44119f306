//! The construction phase.
//!
//! [`build`] explores the reachable frontiers of the automaton for a given
//! pattern and budget, depth first, and produces a deduplicated graph of
//! immutable nodes held in an arena.  Each node's outgoing transitions
//! point at nodes constructed earlier, so the arena is in topological
//! order and the graph is a DAG.  A lookup table keyed by depth, accepting
//! flag and snapshot makes isomorphic subtrees share one node.
//!
//! Every node is proved to *run* exactly as the mathematical automaton
//! ([`crate::model::dfa_run`]) runs from the frontier it was built for.

use vstd::prelude::*;
use crate::model::{
    TChar, Snapshot, find_key, exact_at, insert_all, emit_at, emit_look, emit_pair, acc_pair,
    femit, accepting_of, snapshot_of, sel_pairs, snap_run, dfa_run, pair_ok, frontier_ok,
    snap_pairs_ok, snap_entries_nonempty, lemma_find_key, lemma_find_key_same_keys,
    lemma_insert_all_concat, lemma_insert_all_push, lemma_insert_all_singleton,
    lemma_snapshot_of_wf, Emission,
};
use crate::tracker::{TempTracker, SiDaccPairs, pv, fv, tv, tchar_eq};

verus! {

/// One constructed node: its outgoing transitions (key and arena handle of
/// the child) and whether it is accepting.
pub(crate) struct ArenaNode {
    pub trans: Vec<(TChar, usize)>,
    pub accepting: bool,
}

/// The transitions of a node with handles as unbounded integers.
pub(crate) open spec fn keyed(tr: Seq<(TChar, usize)>) -> Seq<(TChar, int)> {
    tr.map_values(|e: (TChar, usize)| (e.0, e.1 as int))
}

/// The target selected among a node's transitions for the character at
/// position `i` of `q`: the first exact match, else the first wildcard.
pub(crate) open spec fn sel_target(ts: Seq<(TChar, int)>, q: Seq<char>, i: int) -> Option<int> {
    let e = find_key(ts, exact_at(q, i));
    if e < ts.len() {
        Some(ts[e].1)
    } else {
        let w = find_key(ts, TChar::Wildcard);
        if w < ts.len() {
            Some(ts[w].1)
        } else {
            None
        }
    }
}

/// Runs the node graph from handle `h` on input `q`.
pub(crate) open spec fn node_run(arena: Seq<ArenaNode>, h: int, q: Seq<char>) -> bool
    decreases q.len(),
{
    if !(0 <= h < arena.len()) {
        false
    } else if q.len() == 0 {
        arena[h].accepting
    } else {
        match sel_target(keyed(arena[h].trans@), q, 0) {
            Option::None => false,
            Option::Some(h2) => node_run(arena, h2, q.drop_first()),
        }
    }
}

/// Every node's transitions point strictly below it — the arena is in
/// topological order and the graph is a DAG — and no node carries the
/// same key on two transitions.
pub(crate) open spec fn wf_arena(arena: Seq<ArenaNode>) -> bool {
    &&& forall|i: int, j: int|
        0 <= i < arena.len() && 0 <= j < arena[i].trans@.len() ==> (#[trigger] arena[i].trans@[j]).1
            < i
    &&& forall|i: int, j1: int, j2: int|
        #![trigger arena[i].trans@[j1], arena[i].trans@[j2]]
        0 <= i < arena.len() && 0 <= j1 < j2 < arena[i].trans@.len() ==> arena[i].trans@[j1].0
            != arena[i].trans@[j2].0
}

/// Running a node is unaffected by nodes added to the arena later.
pub(crate) proof fn lemma_node_run_extend(
    a1: Seq<ArenaNode>,
    a2: Seq<ArenaNode>,
    h: int,
    q: Seq<char>,
)
    requires
        a1.len() <= a2.len(),
        a2.take(a1.len() as int) == a1,
        wf_arena(a1),
        h < a1.len(),
    ensures
        node_run(a2, h, q) == node_run(a1, h, q),
    decreases q.len(),
{
    if h < 0 {
    } else {
        assert(a2[h] == a2.take(a1.len() as int)[h]);
        if q.len() == 0 {
        } else {
            let ts = keyed(a1[h].trans@);
            match sel_target(ts, q, 0) {
                Option::None => {},
                Option::Some(h2) => {
                    let e = find_key(ts, exact_at(q, 0));
                    lemma_find_key(ts, exact_at(q, 0));
                    lemma_find_key(ts, TChar::Wildcard);
                    assert(exists|j: int| 0 <= j < ts.len() && ts[j].1 == h2);
                    let j = choose|j: int| 0 <= j < ts.len() && ts[j].1 == h2;
                    assert(a1[h].trans@[j].1 < h);
                    lemma_node_run_extend(a1, a2, h2, q.drop_first());
                },
            }
        }
    }
}

/// The semantics of a node: running it is the same as running the
/// mathematical automaton from a state with accepting flag `acc` and
/// transition multimap `m`.
pub(crate) open spec fn node_snap_sem(
    p: Seq<char>,
    k: int,
    arena: Seq<ArenaNode>,
    h: int,
    acc: bool,
    m: Snapshot,
) -> bool {
    forall|q: Seq<char>| (#[trigger] node_run(arena, h, q)) == snap_run(p, k, acc, m, q)
}

/// One deduplication entry: the canonical key (depth, accepting flag,
/// snapshot) and the handle of the node built for it.
pub(crate) struct LookEntry {
    pub x: usize,
    pub acc: bool,
    pub snap: Vec<(TChar, SiDaccPairs)>,
    pub handle: usize,
}

/// Every lookup entry points at a node of the arena that implements the
/// state described by the entry's accepting flag and snapshot.
pub(crate) open spec fn lookup_inv(
    p: Seq<char>,
    k: int,
    arena: Seq<ArenaNode>,
    lk: Seq<LookEntry>,
) -> bool {
    forall|i: int|
        0 <= i < lk.len() ==> (#[trigger] lk[i]).handle < arena.len() && node_snap_sem(
            p,
            k,
            arena,
            lk[i].handle as int,
            lk[i].acc,
            tv(lk[i].snap@),
        )
}

/// Whether two pair lists are equal.
fn pairs_eq(a: &SiDaccPairs, b: &SiDaccPairs) -> (r: bool)
    ensures
        r == (fv(a@) == fv(b@)),
{
    if a.len() != b.len() {
        return false;
    }
    let n = a.len();
    let mut i: usize = 0;
    while i < n
        invariant
            i <= n,
            n == a@.len(),
            n == b@.len(),
            forall|j: int| 0 <= j < i ==> fv(a@)[j] == fv(b@)[j],
        decreases n - i,
    {
        let (sa, da) = a[i];
        let (sb, db) = b[i];
        if sa != sb || da != db {
            proof {
                assert(fv(a@)[i as int] != fv(b@)[i as int]);
            }
            return false;
        }
        i = i + 1;
    }
    proof {
        assert(fv(a@) =~= fv(b@));
    }
    true
}

/// Whether two snapshots are equal.
fn snaps_eq(a: &Vec<(TChar, SiDaccPairs)>, b: &Vec<(TChar, SiDaccPairs)>) -> (r: bool)
    ensures
        r == (tv(a@) == tv(b@)),
{
    if a.len() != b.len() {
        proof {
            assert(tv(a@).len() == a@.len());
            assert(tv(b@).len() == b@.len());
        }
        return false;
    }
    let n = a.len();
    let mut i: usize = 0;
    while i < n
        invariant
            i <= n,
            n == a@.len(),
            n == b@.len(),
            forall|j: int| 0 <= j < i ==> tv(a@)[j] == tv(b@)[j],
        decreases n - i,
    {
        let ka = a[i].0;
        let kb = b[i].0;
        if !tchar_eq(ka, kb) {
            proof {
                assert(tv(a@)[i as int].0 != tv(b@)[i as int].0);
            }
            return false;
        }
        if !pairs_eq(&a[i].1, &b[i].1) {
            proof {
                assert(tv(a@)[i as int].1 != tv(b@)[i as int].1);
            }
            return false;
        }
        i = i + 1;
    }
    proof {
        assert(tv(a@) =~= tv(b@));
    }
    true
}

/// Copies a pair list.
fn clone_pairs(v: &SiDaccPairs) -> (r: SiDaccPairs)
    ensures
        r@ == v@,
{
    let n = v.len();
    let mut r: SiDaccPairs = Vec::new();
    let mut i: usize = 0;
    while i < n
        invariant
            i <= n,
            n == v@.len(),
            r@ == v@.take(i as int),
        decreases n - i,
    {
        r.push(v[i]);
        proof {
            assert(r@ =~= v@.take(i + 1));
        }
        i = i + 1;
    }
    proof {
        assert(r@ =~= v@);
    }
    r
}

} // verus!

verus! {

/// Constructs the node for the frontier `si_dacc` at depth `x_i`,
/// deduplicating through `lookup`, and returns its arena handle.  The node
/// runs exactly as the mathematical automaton runs from that frontier.
#[verifier::loop_isolation(false)]
pub(crate) fn build(
    p: &Vec<char>,
    x_i: usize,
    si_dacc: SiDaccPairs,
    max_distance: i8,
    arena: &mut Vec<ArenaNode>,
    lookup: &mut Vec<LookEntry>,
) -> (h: usize)
    requires
        max_distance >= 0,
        p@.len() + 130 <= usize::MAX,
        frontier_ok(p@, max_distance as int, x_i as int, fv(si_dacc@)),
        x_i <= p@.len() + max_distance + 1,
        wf_arena(old(arena)@),
        lookup_inv(p@, max_distance as int, old(arena)@, old(lookup)@),
    ensures
        old(arena)@.len() <= final(arena)@.len(),
        final(arena)@.take(old(arena)@.len() as int) == old(arena)@,
        wf_arena(final(arena)@),
        lookup_inv(p@, max_distance as int, final(arena)@, final(lookup)@),
        h < final(arena)@.len(),
        forall|q: Seq<char>|
            (#[trigger] node_run(final(arena)@, h as int, q)) == dfa_run(
                p@,
                max_distance as int,
                fv(si_dacc@),
                q,
            ),
    decreases p@.len() + max_distance + 1 - x_i,
{
    let ghost pgh = p@;
    let ghost kk = max_distance as int;
    let ghost frv = fv(si_dacc@);

    let mut tracker = TempTracker::new();
    let mut accepting = false;
    let n = si_dacc.len();
    let mut fi: usize = 0;
    while fi < n
        invariant
            max_distance >= 0,
            pgh == p@,
            kk == max_distance as int,
            frv == fv(si_dacc@),
            p@.len() + 130 <= usize::MAX,
            frontier_ok(pgh, kk, x_i as int, frv),
            n == si_dacc@.len(),
            frv.len() == n,
            fi <= n,
            tracker@ == insert_all(Seq::empty(), femit(pgh, kk, frv.take(fi as int))),
            accepting == accepting_of(pgh, kk, frv.take(fi as int)),
        decreases n - fi,
    {
        let (si, dacc) = si_dacc[fi];
        proof {
            assert(frv[fi as int] == pv((si, dacc)));
            assert(pair_ok(pgh, kk, x_i as int, frv[fi as int]));
        }
        let ghost sv = si as int;
        let ghost dv = dacc as int;
        let ghost base = tracker@;
        let ghost accbase = accepting;

        if si >= p.len() {
            if dacc < max_distance {
                tracker.add(TChar::Wildcard, (si, dacc + 1));
                proof {
                    lemma_insert_all_singleton(base, (TChar::Wildcard, (sv, dv + 1)));
                    assert(emit_pair(pgh, kk, sv, dv) =~= seq![(TChar::Wildcard, (sv, dv + 1))]);
                    assert(tracker@ == insert_all(base, emit_pair(pgh, kk, sv, dv)));
                }
            } else {
                proof {
                    assert(emit_pair(pgh, kk, sv, dv) =~= Seq::<Emission>::empty());
                    assert(tracker@ == insert_all(base, emit_pair(pgh, kk, sv, dv)));
                }
            }
            accepting = true;
            proof {
                assert(acc_pair(pgh, kk, sv, dv));
            }
        } else {
            let match_char = p[si];
            let ghost e1 = seq![(exact_at(pgh, sv), (sv + 1, dv))];
            tracker.add(TChar::Exact(match_char), (si + 1, dacc));
            proof {
                assert(TChar::Exact(match_char) == exact_at(pgh, sv));
                lemma_insert_all_singleton(base, (exact_at(pgh, sv), (sv + 1, dv)));
                assert(e1[0] == (exact_at(pgh, sv), (sv + 1, dv)));
                assert(tracker@ == insert_all(base, e1));
            }
            let rem: usize = (max_distance - dacc) as usize;
            let mut off: usize = 1;
            while off <= rem
                invariant
                    max_distance >= 0,
                    pgh == p@,
                    kk == max_distance as int,
                    p@.len() + 130 <= usize::MAX,
                    rem == kk - dv,
                    rem <= 127,
                    1 <= off <= rem + 1,
                    sv == si as int,
                    dv == dacc as int,
                    0 <= sv < pgh.len(),
                    0 <= dv <= kk,
                    match_char == pgh[sv],
                    e1 == seq![(exact_at(pgh, sv), (sv + 1, dv))],
                    tracker@ == insert_all(base, e1 + emit_look(pgh, kk, sv, dv, off as int)),
                    accepting == (accbase || (off > 1 && sv + off - 1 >= pgh.len())),
                decreases rem + 1 - off,
            {
                let ghost dn0 = e1 + emit_look(pgh, kk, sv, dv, off as int);
                if si + off >= p.len() {
                    accepting = true;
                    proof {
                        assert(emit_at(pgh, kk, sv, dv, off as int) =~= Seq::<Emission>::empty());
                        assert(e1 + emit_look(pgh, kk, sv, dv, off + 1) =~= dn0);
                    }
                } else {
                    let cmp_char = p[si + off];
                    if cmp_char != match_char {
                        let em_key = TChar::Exact(cmp_char);
                        let ghost em1 = (exact_at(pgh, sv + off), (sv + off + 1, dv + off));
                        let ghost em2 = (exact_at(pgh, sv + off), (sv, dv + 1));
                        let ghost em3 = (exact_at(pgh, sv + off), (sv + 1, dv + 1));
                        tracker.add(em_key, (si + off + 1, dacc + off as i8));
                        tracker.add(em_key, (si, dacc + 1));
                        tracker.add(em_key, (si + 1, dacc + 1));
                        proof {
                            assert(em_key == exact_at(pgh, sv + off));
                            lemma_insert_all_push(base, dn0, em1);
                            lemma_insert_all_push(base, dn0.push(em1), em2);
                            lemma_insert_all_push(base, dn0.push(em1).push(em2), em3);
                            assert(emit_at(pgh, kk, sv, dv, off as int) =~= seq![em1, em2, em3]);
                            assert(dn0.push(em1).push(em2).push(em3) =~= e1 + emit_look(
                                pgh,
                                kk,
                                sv,
                                dv,
                                off + 1,
                            ));
                            assert(tracker@ == insert_all(
                                base,
                                e1 + emit_look(pgh, kk, sv, dv, off + 1),
                            ));
                        }
                    } else {
                        proof {
                            assert(pgh[sv + off] == pgh[sv]);
                            assert(emit_at(pgh, kk, sv, dv, off as int)
                                =~= Seq::<Emission>::empty());
                            assert(e1 + emit_look(pgh, kk, sv, dv, off + 1) =~= dn0);
                        }
                    }
                }
                off = off + 1;
            }
            if dacc < max_distance {
                let ghost dn1 = e1 + emit_look(pgh, kk, sv, dv, kk - dv + 1);
                let ghost w1 = (TChar::Wildcard, (sv, dv + 1));
                let ghost w2 = (TChar::Wildcard, (sv + 1, dv + 1));
                tracker.add(TChar::Wildcard, (si, dacc + 1));
                tracker.add(TChar::Wildcard, (si + 1, dacc + 1));
                if si + 1 >= p.len() {
                    accepting = true;
                }
                proof {
                    lemma_insert_all_push(base, dn1, w1);
                    lemma_insert_all_push(base, dn1.push(w1), w2);
                    assert(dn1.push(w1).push(w2) =~= emit_pair(pgh, kk, sv, dv));
                    assert(tracker@ == insert_all(base, emit_pair(pgh, kk, sv, dv)));
                }
            } else {
                proof {
                    assert(e1 + emit_look(pgh, kk, sv, dv, kk - dv + 1) =~= emit_pair(
                        pgh,
                        kk,
                        sv,
                        dv,
                    ));
                    assert(tracker@ == insert_all(base, emit_pair(pgh, kk, sv, dv)));
                }
            }
        }
        proof {
            assert(frv.take(fi + 1).drop_last() =~= frv.take(fi as int));
            assert(frv.take(fi + 1).last() == frv[fi as int]);
            assert(femit(pgh, kk, frv.take(fi + 1)) == femit(pgh, kk, frv.take(fi as int))
                + emit_pair(pgh, kk, sv, dv));
            lemma_insert_all_concat(
                Seq::empty(),
                femit(pgh, kk, frv.take(fi as int)),
                emit_pair(pgh, kk, sv, dv),
            );
            assert(accepting == accepting_of(pgh, kk, frv.take(fi + 1)));
        }
        fi = fi + 1;
    }
    proof {
        assert(frv.take(n as int) =~= frv);
        assert(tracker@ == snapshot_of(pgh, kk, frv));
        assert(accepting == accepting_of(pgh, kk, frv));
    }

    let snapshot = tracker.key();
    let ghost sgh = tv(snapshot@);
    proof {
        assert(sgh == snapshot_of(pgh, kk, frv));
        lemma_snapshot_of_wf(pgh, kk, x_i as int, frv);
    }

    // Deduplication: a node already built for the same depth, accepting
    // flag and snapshot is shared.
    let nl = lookup.len();
    let mut li: usize = 0;
    while li < nl
        invariant
            nl == lookup@.len(),
            li <= nl,
            lookup_inv(pgh, kk, arena@, lookup@),
        decreases nl - li,
    {
        let hit = {
            let ent = &lookup[li];
            ent.x == x_i && ent.acc == accepting && snaps_eq(&ent.snap, &snapshot)
        };
        if hit {
            let handle = lookup[li].handle;
            proof {
                assert(node_snap_sem(pgh, kk, arena@, handle as int, accepting, sgh));
                assert(arena@.take(arena@.len() as int) =~= arena@);
            }
            return handle;
        }
        li = li + 1;
    }

    // Not found: construct each child, then this node.
    let ghost a0 = arena@;
    let cnt = snapshot.len();
    let mut trans: Vec<(TChar, usize)> = Vec::new();
    let mut ci: usize = 0;
    while ci < cnt
        invariant
            max_distance >= 0,
            pgh == p@,
            kk == max_distance as int,
            p@.len() + 130 <= usize::MAX,
            x_i <= p@.len() + max_distance + 1,
            cnt == snapshot@.len(),
            sgh == tv(snapshot@),
            sgh.len() == cnt,
            snap_pairs_ok(pgh, kk, x_i + 1, sgh),
            snap_entries_nonempty(sgh),
            ci <= cnt,
            a0.len() <= arena@.len(),
            arena@.take(a0.len() as int) == a0,
            wf_arena(arena@),
            lookup_inv(pgh, kk, arena@, lookup@),
            trans@.len() == ci,
            forall|j: int| 0 <= j < ci ==> (#[trigger] trans@[j]).0 == sgh[j].0,
            forall|j: int| 0 <= j < ci ==> (#[trigger] trans@[j]).1 < arena@.len(),
            forall|j: int, q: Seq<char>|
                0 <= j < ci ==> (#[trigger] node_run(arena@, trans@[j].1 as int, q)) == dfa_run(
                    pgh,
                    kk,
                    sgh[j].1,
                    q,
                ),
        decreases cnt - ci,
    {
        let key = snapshot[ci].0;
        let child_pairs = clone_pairs(&snapshot[ci].1);
        proof {
            assert(fv(child_pairs@) == sgh[ci as int].1);
            assert(frontier_ok(pgh, kk, x_i + 1, fv(child_pairs@))) by {
                assert forall|l: int|
                    0 <= l < sgh[ci as int].1.len() implies pair_ok(
                    pgh,
                    kk,
                    x_i + 1,
                    #[trigger] sgh[ci as int].1[l],
                ) by {
                    assert(snap_pairs_ok(pgh, kk, x_i + 1, sgh));
                }
            }
            assert(sgh[ci as int].1.len() > 0);
            assert(pair_ok(pgh, kk, x_i + 1, sgh[ci as int].1[0]));
            assert(x_i + 1 <= pgh.len() + kk + 1);
        }
        let ghost aprev = arena@;
        let ch = build(p, x_i + 1, child_pairs, max_distance, arena, lookup);
        proof {
            assert(arena@.take(a0.len() as int) =~= a0);
            assert forall|j: int, q: Seq<char>|
                0 <= j < ci implies (#[trigger] node_run(arena@, trans@[j].1 as int, q))
                == dfa_run(pgh, kk, sgh[j].1, q) by {
                lemma_node_run_extend(aprev, arena@, trans@[j].1 as int, q);
            }
        }
        trans.push((key, ch));
        ci = ci + 1;
    }

    let ghost apre = arena@;
    let h = arena.len();
    arena.push(ArenaNode { trans, accepting });
    proof {
        let af = arena@;
        assert(af.take(apre.len() as int) =~= apre);
        assert(af.take(a0.len() as int) =~= a0);
        assert(wf_arena(af)) by {
            assert forall|i: int, j: int|
                0 <= i < af.len() && 0 <= j < af[i].trans@.len() implies (#[trigger] af[i].trans@[j]).1
                < i by {
                if i < apre.len() {
                    assert(af[i] == apre[i]);
                } else {
                    assert(af[i].trans@[j].1 < apre.len());
                }
            }
            assert forall|i: int, j1: int, j2: int|
                #![trigger af[i].trans@[j1], af[i].trans@[j2]]
                0 <= i < af.len() && 0 <= j1 < j2 < af[i].trans@.len() implies af[i].trans@[j1].0
                != af[i].trans@[j2].0 by {
                if i < apre.len() {
                    assert(af[i] == apre[i]);
                } else {
                    assert(af[i].trans@[j1].0 == sgh[j1].0);
                    assert(af[i].trans@[j2].0 == sgh[j2].0);
                }
            }
        }
        // The new node implements the state (accepting, sgh).
        assert forall|q: Seq<char>|
            (#[trigger] node_run(af, h as int, q)) == snap_run(pgh, kk, accepting, sgh, q) by {
            if q.len() == 0 {
            } else {
                let ts = keyed(af[h as int].trans@);
                assert(ts.len() == sgh.len());
                assert forall|j: int| 0 <= j < ts.len() implies (#[trigger] ts[j]).0 == sgh[j].0 by {
                    assert(af[h as int].trans@[j].0 == sgh[j].0);
                }
                lemma_find_key_same_keys(ts, sgh, exact_at(q, 0));
                lemma_find_key_same_keys(ts, sgh, TChar::Wildcard);
                lemma_find_key(sgh, exact_at(q, 0));
                lemma_find_key(sgh, TChar::Wildcard);
                let e = find_key(sgh, exact_at(q, 0));
                let w = find_key(sgh, TChar::Wildcard);
                let sel = if e < sgh.len() {
                    e
                } else {
                    w
                };
                if e < sgh.len() || w < sgh.len() {
                    let h2 = af[h as int].trans@[sel].1;
                    assert(h2 < apre.len());
                    assert(node_run(apre, h2 as int, q.drop_first()) == dfa_run(
                        pgh,
                        kk,
                        sgh[sel].1,
                        q.drop_first(),
                    ));
                    lemma_node_run_extend(apre, af, h2 as int, q.drop_first());
                    assert(sel_target(ts, q, 0) == Some(h2 as int));
                    assert(sel_pairs(sgh, q, 0) == Some(sgh[sel].1));
                } else {
                    assert(sel_target(ts, q, 0) is None);
                    assert(sel_pairs(sgh, q, 0) is None);
                }
            }
        }
        // Entries of the lookup table keep their meaning in the larger arena.
        assert forall|i: int|
            0 <= i < lookup@.len() implies (#[trigger] lookup@[i]).handle < af.len()
            && node_snap_sem(
            pgh,
            kk,
            af,
            lookup@[i].handle as int,
            lookup@[i].acc,
            tv(lookup@[i].snap@),
        ) by {
            assert(lookup@[i].handle < apre.len());
            assert forall|q: Seq<char>|
                (#[trigger] node_run(af, lookup@[i].handle as int, q)) == snap_run(
                pgh,
                kk,
                lookup@[i].acc,
                tv(lookup@[i].snap@),
                q,
            ) by {
                lemma_node_run_extend(apre, af, lookup@[i].handle as int, q);
            }
        }
    }
    lookup.push(LookEntry { x: x_i, acc: accepting, snap: snapshot, handle: h });
    h
}

} // verus!

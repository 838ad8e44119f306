//! The flat automaton and its public interface.
//!
//! [`flatten`] lays the constructed node graph out as two contiguous
//! arrays: a head per state and one shared array of transitions, with
//! indices in place of handles and the start state at index zero.
//! [`LevenshteinAutomata`] owns the arrays; [`LevenshteinAutomata::check`]
//! walks them in time linear in the input, and is proved to return exactly
//! what the mathematical automaton [`crate::model::dfa_run`] returns for
//! the pattern and bound the automaton was built with.

use vstd::prelude::*;
use crate::model::{
    TChar, find_key, exact_at, dfa_run, init_frontier, pair_ok, lemma_find_key, lemma_find_key_is,
    lemma_find_key_same_keys,
};
use crate::construct::{ArenaNode, LookEntry, keyed, sel_target, node_run, wf_arena, build};
use crate::tracker::{SiDaccPairs, fv, tchar_eq};

verus! {

/// One state of the flat automaton.  When `has_children` is false the two
/// range fields carry no meaning and are never read.
#[derive(Clone, Copy)]
pub struct Head {
    pub has_children: bool,
    pub trns_start: usize,
    pub trns_end: usize,
    pub accepting: bool,
}

/// One outgoing transition of the flat automaton.
#[derive(Clone, Copy)]
pub struct Transition {
    pub tchar: TChar,
    pub points_to: usize,
}

/// The structural invariants of the flat arrays: there is a start state;
/// every head with children has a well-formed transition range; every
/// transition targets a valid head; and within one head's range no key
/// repeats.
pub open spec fn wf_flat(heads: Seq<Head>, trns: Seq<Transition>) -> bool {
    &&& heads.len() >= 1
    &&& forall|i: int|
        0 <= i < heads.len() && (#[trigger] heads[i]).has_children ==> heads[i].trns_start
            <= heads[i].trns_end < trns.len()
    &&& forall|j: int| 0 <= j < trns.len() ==> (#[trigger] trns[j]).points_to < heads.len()
    &&& forall|i: int, j1: int, j2: int|
        #![trigger heads[i].has_children, trns[j1].tchar, trns[j2].tchar]
        0 <= i < heads.len() && heads[i].has_children && heads[i].trns_start <= j1 < j2
            <= heads[i].trns_end ==> trns[j1].tchar != trns[j2].tchar
}

/// The transitions of one head as a list of `(key, target)` entries.
pub open spec fn window(trns: Seq<Transition>, start: int, end: int) -> Seq<(TChar, int)> {
    trns.subrange(start, end + 1).map_values(|t: Transition| (t.tchar, t.points_to as int))
}

/// Runs the flat automaton from head `i` on input `q`.
pub(crate) open spec fn flat_run(heads: Seq<Head>, trns: Seq<Transition>, i: int, q: Seq<char>) -> bool
    decreases q.len(),
{
    if !(0 <= i < heads.len()) {
        false
    } else if q.len() == 0 {
        heads[i].accepting
    } else if !heads[i].has_children {
        false
    } else {
        match sel_target(
            window(trns, heads[i].trns_start as int, heads[i].trns_end as int),
            q,
            0,
        ) {
            Option::None => false,
            Option::Some(t) => flat_run(heads, trns, t, q.drop_first()),
        }
    }
}

/// How the flat arrays lay the arena out: head `i` stands for arena node
/// `root - i`, with the same accepting flag, the same keys in the same
/// order, and targets renumbered the same way.
pub(crate) open spec fn flat_corr(
    arena: Seq<ArenaNode>,
    root: int,
    heads: Seq<Head>,
    trns: Seq<Transition>,
) -> bool {
    &&& heads.len() == root + 1
    &&& forall|i: int|
        0 <= i <= root ==> (#[trigger] heads[i]).accepting == arena[root - i].accepting
    &&& forall|i: int|
        0 <= i <= root ==> (#[trigger] heads[i]).has_children == (arena[root - i].trans@.len() > 0)
    &&& forall|i: int|
        0 <= i <= root && (#[trigger] heads[i]).has_children ==> heads[i].trns_end + 1
            == heads[i].trns_start + arena[root - i].trans@.len() && heads[i].trns_end < trns.len()
    &&& forall|i: int, j: int|
        #![trigger trns[heads[i].trns_start + j], arena[root - i].trans@[j]]
        0 <= i <= root && 0 <= j < arena[root - i].trans@.len() ==> trns[heads[i].trns_start
            + j].tchar == arena[root - i].trans@[j].0 && trns[heads[i].trns_start + j].points_to
            == root - arena[root - i].trans@[j].1
}

/// Under the correspondence, running flat head `i` is running arena node
/// `root - i`.
pub(crate) proof fn lemma_flat_run(
    arena: Seq<ArenaNode>,
    root: int,
    heads: Seq<Head>,
    trns: Seq<Transition>,
    i: int,
    q: Seq<char>,
)
    requires
        wf_arena(arena),
        0 <= root < arena.len(),
        flat_corr(arena, root, heads, trns),
        0 <= i <= root,
    ensures
        flat_run(heads, trns, i, q) == node_run(arena, root - i, q),
    decreases q.len(),
{
    if q.len() == 0 {
    } else {
        let nd = arena[root - i];
        let ts = keyed(nd.trans@);
        if nd.trans@.len() == 0 {
            assert(find_key(ts, exact_at(q, 0)) == 0);
            assert(find_key(ts, TChar::Wildcard) == 0);
        } else {
            let start = heads[i].trns_start as int;
            let end = heads[i].trns_end as int;
            let win = window(trns, start, end);
            assert(win.len() == ts.len());
            assert forall|j: int| 0 <= j < win.len() implies (#[trigger] win[j]).0 == ts[j].0 by {
                assert(trns[start + j].tchar == nd.trans@[j].0);
            }
            lemma_find_key_same_keys(win, ts, exact_at(q, 0));
            lemma_find_key_same_keys(win, ts, TChar::Wildcard);
            lemma_find_key(ts, exact_at(q, 0));
            lemma_find_key(ts, TChar::Wildcard);
            let e = find_key(ts, exact_at(q, 0));
            let w = find_key(ts, TChar::Wildcard);
            let sel = if e < ts.len() {
                e
            } else {
                w
            };
            if e < ts.len() || w < ts.len() {
                let h2 = nd.trans@[sel].1 as int;
                assert(heads[i].has_children);
                assert(win[sel] == (trns[start + sel].tchar, trns[start + sel].points_to as int));
                assert(trns[heads[i].trns_start + sel].points_to == root - arena[root - i].trans@[sel].1);
                assert(win[sel].1 == root - h2);
                assert(0 <= h2 < root - i);
                lemma_flat_run(arena, root, heads, trns, root - h2, q.drop_first());
            }
        }
    }
}

/// Serializes the node graph into the two flat arrays, head `0` standing
/// for the root.
#[verifier::loop_isolation(false)]
pub(crate) fn flatten(arena: &Vec<ArenaNode>, root: usize) -> (res: (Vec<Head>, Vec<Transition>))
    requires
        wf_arena(arena@),
        root < arena@.len(),
    ensures
        wf_flat(res.0@, res.1@),
        res.0@.len() == root + 1,
        flat_corr(arena@, root as int, res.0@, res.1@),
{
    let alen = arena.len();
    let mut heads: Vec<Head> = Vec::new();
    let mut trns: Vec<Transition> = Vec::new();
    let mut i: usize = 0;
    while i <= root
        invariant
            i <= root + 1,
            root < alen,
            alen == arena@.len(),
            heads@.len() == i,
            forall|a: int|
                0 <= a < i ==> (#[trigger] heads@[a]).accepting == arena@[root - a].accepting,
            forall|a: int|
                0 <= a < i ==> (#[trigger] heads@[a]).has_children == (arena@[root - a].trans@.len()
                    > 0),
            forall|a: int|
                0 <= a < i && (#[trigger] heads@[a]).has_children ==> heads@[a].trns_end + 1
                    == heads@[a].trns_start + arena@[root - a].trans@.len() && heads@[a].trns_end
                    < trns@.len(),
            forall|a: int, j: int|
                #![trigger trns@[heads@[a].trns_start + j], arena@[root - a].trans@[j]]
                0 <= a < i && 0 <= j < arena@[root - a].trans@.len() ==> trns@[heads@[a].trns_start
                    + j].tchar == arena@[root - a].trans@[j].0 && trns@[heads@[a].trns_start
                    + j].points_to == root - arena@[root - a].trans@[j].1,
            forall|j: int| 0 <= j < trns@.len() ==> (#[trigger] trns@[j]).points_to <= root,
        decreases root + 1 - i,
    {
        let node = &arena[root - i];
        let cnt = node.trans.len();
        let trns_start = trns.len();
        let mut j: usize = 0;
        while j < cnt
            invariant
                j <= cnt,
                cnt == node.trans@.len(),
                trns@.len() == trns_start + j,
                forall|a: int|
                    0 <= a < i && (#[trigger] heads@[a]).has_children ==> heads@[a].trns_end + 1
                        == heads@[a].trns_start + arena@[root - a].trans@.len()
                        && heads@[a].trns_end < trns_start,
                forall|a: int, l: int|
                    #![trigger trns@[heads@[a].trns_start + l], arena@[root - a].trans@[l]]
                    0 <= a < i && 0 <= l < arena@[root - a].trans@.len()
                        ==> trns@[heads@[a].trns_start + l].tchar == arena@[root - a].trans@[l].0
                        && trns@[heads@[a].trns_start + l].points_to
                            == root - arena@[root - a].trans@[l].1,
                forall|l: int|
                    0 <= l < j ==> (#[trigger] trns@[trns_start + l]).tchar == node.trans@[l].0
                        && trns@[trns_start + l].points_to == root - node.trans@[l].1,
                forall|l: int| 0 <= l < trns@.len() ==> (#[trigger] trns@[l]).points_to <= root,
            decreases cnt - j,
        {
            let (tc, child) = node.trans[j];
            proof {
                assert(node.trans@[j as int].1 < root - i);
            }
            trns.push(Transition { tchar: tc, points_to: root - child });
            j = j + 1;
        }
        let has_children = cnt > 0;
        let trns_end = if has_children {
            trns.len() - 1
        } else {
            trns_start
        };
        heads.push(Head { has_children, trns_start, trns_end, accepting: node.accepting });
        i = i + 1;
    }
    proof {
        assert(wf_flat(heads@, trns@)) by {
            assert forall|a: int, j1: int, j2: int|
                #![trigger heads@[a].has_children, trns@[j1].tchar, trns@[j2].tchar]
                0 <= a < heads@.len() && heads@[a].has_children && heads@[a].trns_start <= j1 < j2
                    <= heads@[a].trns_end implies trns@[j1].tchar != trns@[j2].tchar by {
                let nd = arena@[root - a];
                let l1 = j1 - heads@[a].trns_start;
                let l2 = j2 - heads@[a].trns_start;
                assert(trns@[heads@[a].trns_start + l1].tchar == nd.trans@[l1].0);
                assert(trns@[heads@[a].trns_start + l2].tchar == nd.trans@[l2].0);
                assert(nd.trans@[l1].0 != nd.trans@[l2].0);
            }
        }
    }
    (heads, trns)
}

} // verus!

verus! {

/// First index in `[start, end]` whose transition carries `key`, as the
/// transition's target, or `None` when no transition in the range does.
fn scan_key(trns: &Vec<Transition>, start: usize, end: usize, key: TChar) -> (r: Option<usize>)
    requires
        start <= end < trns@.len(),
    ensures
        ({
            let win = window(trns@, start as int, end as int);
            match r {
                Option::Some(pt) => {
                    let f = find_key(win, key);
                    f < win.len() && win[f].1 == pt as int
                },
                Option::None => find_key(win, key) == win.len(),
            }
        }),
{
    let ghost win = window(trns@, start as int, end as int);
    let m = trns.len();
    let mut t: usize = start;
    while t <= end
        invariant
            start <= t <= end + 1,
            end < m,
            m == trns@.len(),
            win == window(trns@, start as int, end as int),
            forall|j: int| 0 <= j < t - start ==> (#[trigger] win[j]).0 != key,
        decreases end + 1 - t,
    {
        let tr = trns[t];
        if tchar_eq(tr.tchar, key) {
            proof {
                assert(win[t - start].0 == key);
                lemma_find_key_is(win, key, t - start);
            }
            return Some(tr.points_to);
        }
        t = t + 1;
    }
    proof {
        lemma_find_key_is(win, key, win.len() as int);
    }
    None
}

/// A deterministic automaton answering "is the Levenshtein distance
/// between the pattern and an input string at most the bound?" in time
/// linear in the input.
pub struct LevenshteinAutomata {
    src: String,
    max_distance: i8,
    heads: Vec<Head>,
    transitions: Vec<Transition>,
}

/// What [`LevenshteinAutomata::check`] returns: the mathematical automaton
/// for the value's pattern and bound, run on `q` from the start state.
pub open spec fn spec_check(a: &LevenshteinAutomata, q: Seq<char>) -> bool {
    dfa_run(a.pattern(), a.max_dist(), init_frontier(), q)
}

impl LevenshteinAutomata {
    /// The pattern the automaton was built for.
    pub closed spec fn pattern(&self) -> Seq<char> {
        self.src@
    }

    /// The bound the automaton was built for.
    pub closed spec fn max_dist(&self) -> int {
        self.max_distance as int
    }

    /// The flat head array.
    pub closed spec fn spec_heads(&self) -> Seq<Head> {
        self.heads@
    }

    /// The flat transition array.
    pub closed spec fn spec_transitions(&self) -> Seq<Transition> {
        self.transitions@
    }

    /// The flat arrays are structurally sound and running them from the
    /// start state answers as the mathematical automaton does.
    #[verifier::type_invariant]
    spec fn wf(&self) -> bool {
        &&& self.max_distance >= 0
        &&& wf_flat(self.heads@, self.transitions@)
        &&& forall|q: Seq<char>|
            (#[trigger] flat_run(self.heads@, self.transitions@, 0, q)) == dfa_run(
                self.src@,
                self.max_distance as int,
                init_frontier(),
                q,
            )
    }

    /// Instantiates a new automaton for pattern `src` and bound
    /// `max_distance`.
    pub fn new(src: &str, max_distance: i8) -> (r: Self)
        requires
            max_distance >= 0,
            src@.len() + 130 <= usize::MAX,
        ensures
            r.pattern() == src@,
            r.max_dist() == max_distance as int,
            wf_flat(r.spec_heads(), r.spec_transitions()),
    {
        let chars = crate::chars_of(src);
        let mut arena: Vec<ArenaNode> = Vec::new();
        let mut lookup: Vec<LookEntry> = Vec::new();
        let mut init: SiDaccPairs = Vec::new();
        init.push((0, 0));
        proof {
            assert(fv(init@) =~= init_frontier());
            assert forall|i: int|
                0 <= i < init_frontier().len() implies pair_ok(
                chars@,
                max_distance as int,
                0,
                #[trigger] init_frontier()[i],
            ) by {
                assert(init_frontier()[i] == (0int, 0int));
            }
        }
        let root = build(&chars, 0, init, max_distance, &mut arena, &mut lookup);
        let (heads, transitions) = flatten(&arena, root);
        proof {
            assert forall|q: Seq<char>|
                (#[trigger] flat_run(heads@, transitions@, 0, q)) == dfa_run(
                src@,
                max_distance as int,
                init_frontier(),
                q,
            ) by {
                lemma_flat_run(arena@, root as int, heads@, transitions@, 0, q);
                assert(node_run(arena@, root as int, q) == dfa_run(
                    chars@,
                    max_distance as int,
                    init_frontier(),
                    q,
                ));
            }
        }
        let r = LevenshteinAutomata { src: src.to_owned(), max_distance, heads, transitions };
        r
    }

    /// Checks an input string against the pattern: true exactly when the
    /// automaton for `(pattern, bound)` accepts `input`.
    #[verifier::loop_isolation(false)]
    pub fn check(&self, input: &str) -> (r: bool)
        ensures
            r == spec_check(self, input@),
    {
        proof {
            use_type_invariant(self);
        }
        let q = crate::chars_of(input);
        let ghost qv = input@;
        let ghost hs = self.heads@;
        let ghost ts = self.transitions@;
        let n = q.len();
        let mut cur: usize = 0;
        let mut i: usize = 0;
        proof {
            assert(qv.skip(0) =~= qv);
        }
        while i < n
            invariant
                i <= n,
                n == qv.len(),
                q@ == qv,
                hs == self.heads@,
                ts == self.transitions@,
                wf_flat(hs, ts),
                cur < hs.len(),
                flat_run(hs, ts, 0, qv) == flat_run(hs, ts, cur as int, qv.skip(i as int)),
            decreases n - i,
        {
            let ghost rest = qv.skip(i as int);
            proof {
                assert(rest.len() > 0);
                assert(rest[0] == qv[i as int]);
                assert(rest.drop_first() =~= qv.skip(i + 1));
            }
            let head = self.heads[cur];
            if !head.has_children {
                proof {
                    assert(!flat_run(hs, ts, cur as int, rest));
                }
                return false;
            }
            let c = q[i];
            let ghost win = window(ts, head.trns_start as int, head.trns_end as int);
            let exact = scan_key(&self.transitions, head.trns_start, head.trns_end, TChar::Exact(c));
            let sel = match exact {
                Option::Some(pt) => Some(pt),
                Option::None => scan_key(
                    &self.transitions,
                    head.trns_start,
                    head.trns_end,
                    TChar::Wildcard,
                ),
            };
            proof {
                assert(exact_at(rest, 0) == TChar::Exact(c));
            }
            match sel {
                Option::Some(pt) => {
                    proof {
                        assert(sel_target(win, rest, 0) == Some(pt as int));
                        assert(flat_run(hs, ts, cur as int, rest) == flat_run(
                            hs,
                            ts,
                            pt as int,
                            rest.drop_first(),
                        ));
                        lemma_find_key(win, exact_at(rest, 0));
                        lemma_find_key(win, TChar::Wildcard);
                        assert(pt < hs.len());
                    }
                    cur = pt;
                },
                Option::None => {
                    proof {
                        assert(sel_target(win, rest, 0) is None);
                        assert(!flat_run(hs, ts, cur as int, rest));
                    }
                    return false;
                },
            }
            i = i + 1;
        }
        proof {
            assert(qv.skip(n as int) =~= Seq::<char>::empty());
        }
        self.heads[cur].accepting
    }

    /// Returns the pattern and the bound the automaton was built with.
    pub fn details(&self) -> (r: (&str, i8))
        ensures
            r.0@ == self.pattern(),
            r.1 as int == self.max_dist(),
    {
        (self.src.as_str(), self.max_distance)
    }
}

/// Two automata built for the same pattern and bound answer every input
/// alike: what `check` returns is a function of the pattern, the bound and
/// the input alone.
pub proof fn lemma_check_deterministic(
    a1: &LevenshteinAutomata,
    a2: &LevenshteinAutomata,
    q: Seq<char>,
)
    requires
        a1.pattern() == a2.pattern(),
        a1.max_dist() == a2.max_dist(),
    ensures
        spec_check(a1, q) == spec_check(a2, q),
{
}

} // verus!

verus! {

/// Identity: an automaton accepts its own pattern.
pub proof fn lemma_check_identity(a: &LevenshteinAutomata)
    requires
        a.max_dist() >= 0,
    ensures
        spec_check(a, a.pattern()),
{
    crate::model::lemma_dfa_run_identity(a.pattern(), a.max_dist());
}

} // verus!

verus! {

/// On the empty input the automaton accepts exactly when the whole
/// pattern fits within the bound.
pub proof fn lemma_check_empty_input(a: &LevenshteinAutomata)
    requires
        a.max_dist() >= 0,
    ensures
        spec_check(a, Seq::<char>::empty()) == (a.pattern().len() <= a.max_dist()),
{
    crate::model::lemma_dfa_run_empty_input(a.pattern(), a.max_dist());
}

/// With a bound of zero the automaton accepts exactly its own pattern.
pub proof fn lemma_check_zero_budget(a: &LevenshteinAutomata, q: Seq<char>)
    requires
        a.max_dist() == 0,
    ensures
        spec_check(a, q) == (q == a.pattern()),
{
    crate::model::lemma_dfa_run_zero_budget(a.pattern(), q);
}

} // verus!

verus! {

/// Inputs whose length differs from the pattern's by more than the bound
/// are never accepted.
pub proof fn lemma_check_length_filter(a: &LevenshteinAutomata, q: Seq<char>)
    requires
        a.max_dist() >= 0,
        q.len() > a.pattern().len() + a.max_dist() || q.len() + a.max_dist() < a.pattern().len(),
    ensures
        !spec_check(a, q),
{
    crate::model::lemma_dfa_run_length_filter(a.pattern(), a.max_dist(), q);
}

} // verus!


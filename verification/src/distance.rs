//! Exact Levenshtein distance.
//!
//! [`lev`] is the mathematical definition of the edit distance between two
//! character sequences: the least number of single-character insertions,
//! deletions and substitutions that turns one into the other.
//! [`levenshtein_distance`] computes it with the classical two-row dynamic
//! program and is proved to return exactly [`lev`].

use vstd::prelude::*;

verus! {

/// Minimum of three natural numbers.
pub open spec fn min3(a: nat, b: nat, c: nat) -> nat {
    if a <= b && a <= c {
        a
    } else if b <= c {
        b
    } else {
        c
    }
}

/// The Levenshtein edit distance between `a` and `b`, defined by the
/// classical recurrence on the last characters of the two sequences.
pub open spec fn lev(a: Seq<char>, b: Seq<char>) -> nat
    decreases a.len() + b.len(),
{
    if a.len() == 0 {
        b.len()
    } else if b.len() == 0 {
        a.len()
    } else {
        let del = lev(a.drop_last(), b) + 1;
        let ins = lev(a, b.drop_last()) + 1;
        let sub = lev(a.drop_last(), b.drop_last()) + if a.last() == b.last() {
            0nat
        } else {
            1nat
        };
        min3(del, ins, sub)
    }
}

/// The distance never exceeds the total length of the two sequences.
pub proof fn lemma_lev_le_sum(a: Seq<char>, b: Seq<char>)
    ensures
        lev(a, b) <= a.len() + b.len(),
    decreases a.len() + b.len(),
{
    if a.len() == 0 || b.len() == 0 {
    } else {
        lemma_lev_le_sum(a.drop_last(), b.drop_last());
    }
}

/// A sequence is at distance zero from itself.
pub proof fn lemma_lev_self(a: Seq<char>)
    ensures
        lev(a, a) == 0,
    decreases a.len(),
{
    if a.len() == 0 {
    } else {
        lemma_lev_self(a.drop_last());
    }
}

/// The distance is symmetric in its two arguments.
pub proof fn lemma_lev_symmetric(a: Seq<char>, b: Seq<char>)
    ensures
        lev(a, b) == lev(b, a),
    decreases a.len() + b.len(),
{
    if a.len() == 0 || b.len() == 0 {
    } else {
        lemma_lev_symmetric(a.drop_last(), b);
        lemma_lev_symmetric(a, b.drop_last());
        lemma_lev_symmetric(a.drop_last(), b.drop_last());
    }
}

/// Truncating both sequences to their full length changes nothing;
/// stated on `take` so the loop invariants below can close the proof.
proof fn lemma_take_all(a: Seq<char>)
    ensures
        a.take(a.len() as int) == a,
{
    assert(a.take(a.len() as int) =~= a);
}

/// One unfolding of `lev` on prefixes: relates `lev(a.take(i), b.take(j+1))`
/// to the three neighbouring table cells of the dynamic program.
proof fn lemma_lev_step(a: Seq<char>, b: Seq<char>, i: int, j: int)
    requires
        1 <= i <= a.len(),
        0 <= j < b.len(),
    ensures
        lev(a.take(i), b.take(j + 1)) == min3(
            lev(a.take(i - 1), b.take(j + 1)) + 1,
            lev(a.take(i), b.take(j)) + 1,
            lev(a.take(i - 1), b.take(j)) + if a[i - 1] == b[j] {
                0nat
            } else {
                1nat
            },
        ),
{
    assert(a.take(i).drop_last() =~= a.take(i - 1));
    assert(b.take(j + 1).drop_last() =~= b.take(j));
    assert(a.take(i).last() == a[i - 1]);
    assert(b.take(j + 1).last() == b[j]);
}

/// Computes the Levenshtein distance between `a` and `b`.
///
/// Returns exactly the mathematical distance [`lev`] of the two strings'
/// character sequences.
pub fn levenshtein_distance(a: &str, b: &str) -> (r: i32)
    requires
        a@.len() + b@.len() < i32::MAX,
    ensures
        r == lev(a@, b@),
{
    let rowstr = crate::chars_of(a);
    let colstr = crate::chars_of(b);
    let n = rowstr.len();
    let mut prev: Vec<i32> = Vec::new();
    let mut f: usize = 0;
    while f <= n
        invariant
            f <= n + 1,
            n == a@.len(),
            a@.len() + b@.len() < i32::MAX,
            prev@.len() == f,
            forall|x: int| 0 <= x < f ==> prev@[x] == x,
        decreases n + 1 - f,
    {
        prev.push(f as i32);
        f = f + 1;
    }
    let mut current: Vec<i32> = Vec::new();
    let mut g: usize = 0;
    while g <= n
        invariant
            g <= n + 1,
            n == a@.len(),
            a@.len() + b@.len() < i32::MAX,
            current@.len() == g,
        decreases n + 1 - g,
    {
        current.push(0i32);
        g = g + 1;
    }
    proof {
        assert forall|x: int| 0 <= x <= n implies lev(a@.take(x), b@.take(0)) == x by {
            assert(b@.take(0) =~= Seq::<char>::empty());
            assert(a@.take(x).len() == x);
        }
    }
    let m = colstr.len();
    let mut j: usize = 0;
    while j < m
        invariant
            j <= m,
            n == a@.len(),
            m == b@.len(),
            rowstr@ == a@,
            colstr@ == b@,
            a@.len() + b@.len() < i32::MAX,
            prev@.len() == n + 1,
            current@.len() == n + 1,
            forall|x: int| 0 <= x <= n ==> prev@[x] == lev(a@.take(x), b@.take(j as int)),
        decreases m - j,
    {
        let cj = colstr[j];
        current.set(0, j as i32 + 1);
        proof {
            assert(b@.take(j + 1).len() == j + 1);
            assert(lev(a@.take(0), b@.take(j + 1)) == j + 1) by {
                assert(a@.take(0).len() == 0);
            }
        }
        let mut i: usize = 1;
        while i <= n
            invariant
                1 <= i <= n + 1,
                0 <= j < m,
                n == a@.len(),
                m == b@.len(),
                rowstr@ == a@,
                colstr@ == b@,
                cj == b@[j as int],
                a@.len() + b@.len() < i32::MAX,
                prev@.len() == n + 1,
                current@.len() == n + 1,
                forall|x: int| 0 <= x <= n ==> prev@[x] == lev(a@.take(x), b@.take(j as int)),
                forall|x: int| 0 <= x < i ==> current@[x] == lev(a@.take(x), b@.take(j + 1)),
            decreases n + 1 - i,
        {
            proof {
                lemma_lev_le_sum(a@.take(i as int), b@.take(j as int));
                lemma_lev_le_sum(a@.take(i - 1), b@.take(j as int));
                lemma_lev_le_sum(a@.take(i - 1), b@.take(j + 1));
                assert(a@.take(i as int).len() == i);
                assert(a@.take(i - 1).len() == i - 1);
                assert(b@.take(j as int).len() == j);
                assert(b@.take(j + 1).len() == j + 1);
            }
            let r_insert_d = prev[i] + 1;
            let r_del_d = current[i - 1] + 1;
            let base = prev[i - 1];
            let r_match_or_sub_d = if rowstr[i - 1] == cj {
                base
            } else {
                base + 1
            };
            let mut best = r_match_or_sub_d;
            if r_insert_d < best {
                best = r_insert_d;
            }
            if r_del_d < best {
                best = r_del_d;
            }
            current.set(i, best);
            proof {
                lemma_lev_step(a@, b@, i as int, j as int);
            }
            i = i + 1;
        }
        let tmp = prev;
        prev = current;
        current = tmp;
        j = j + 1;
    }
    proof {
        lemma_take_all(a@);
        lemma_take_all(b@);
        lemma_lev_le_sum(a@, b@);
    }
    prev[n]
}

} // verus!

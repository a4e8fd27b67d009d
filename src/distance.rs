//! Levenshtein edit distance between character sequences.
use vstd::prelude::*;
use crate::text::chars_vec;

verus! {

pub open spec fn min3(a: nat, b: nat, c: nat) -> nat {
    if a <= b && a <= c {
        a
    } else if b <= c {
        b
    } else {
        c
    }
}

/// The least number of single-character insertions, deletions and
/// substitutions that turn `p` into `t`.
pub open spec fn edit_distance(p: Seq<char>, t: Seq<char>) -> nat
    decreases p.len() + t.len(),
{
    if p.len() == 0 {
        t.len()
    } else if t.len() == 0 {
        p.len()
    } else if p.last() == t.last() {
        edit_distance(p.drop_last(), t.drop_last())
    } else {
        1 + min3(
            edit_distance(p.drop_last(), t),
            edit_distance(p, t.drop_last()),
            edit_distance(p.drop_last(), t.drop_last()),
        )
    }
}

pub proof fn lemma_distance_bound(p: Seq<char>, t: Seq<char>)
    ensures
        edit_distance(p, t) <= p.len() + t.len(),
    decreases p.len() + t.len(),
{
    if p.len() > 0 && t.len() > 0 {
        lemma_distance_bound(p.drop_last(), t.drop_last());
        lemma_distance_bound(p.drop_last(), t);
        lemma_distance_bound(p, t.drop_last());
    }
}

/// The edit distance between two strings, over their characters.
pub fn min_edit_distance(pattern: &str, text: &str) -> (r: usize)
    requires
        pattern@.len() + text@.len() < usize::MAX,
    ensures
        r == edit_distance(pattern@, text@),
{
    let pattern = chars_vec(pattern);
    let text = chars_vec(text);
    let m = pattern.len();
    let n = text.len();
    // prev[j] is the distance from the first j pattern characters to the first i text characters
    let mut prev: Vec<usize> = Vec::new();
    let mut j: usize = 0;
    while j <= m
        invariant
            j <= m + 1,
            m == pattern@.len(),
            m + n < usize::MAX,
            prev@.len() == j,
            forall|k: int| 0 <= k < j ==> prev@[k] == edit_distance(pattern@.subrange(0, k), text@.subrange(0, 0)),
        decreases m + 1 - j,
    {
        proof {
            assert(edit_distance(pattern@.subrange(0, j as int), text@.subrange(0, 0)) == j);
        }
        prev.push(j);
        j = j + 1;
    }
    let mut i: usize = 1;
    while i <= n
        invariant
            1 <= i <= n + 1,
            m == pattern@.len(),
            n == text@.len(),
            m + n < usize::MAX,
            prev@.len() == m + 1,
            forall|k: int| 0 <= k <= m ==> prev@[k] == edit_distance(pattern@.subrange(0, k), text@.subrange(0, i - 1)),
        decreases n + 1 - i,
    {
        let mut cur: Vec<usize> = Vec::new();
        proof {
            assert(edit_distance(pattern@.subrange(0, 0), text@.subrange(0, i as int)) == i);
        }
        cur.push(i);
        let mut j: usize = 1;
        while j <= m
            invariant
                1 <= i <= n,
                1 <= j <= m + 1,
                m == pattern@.len(),
                n == text@.len(),
                m + n < usize::MAX,
                prev@.len() == m + 1,
                cur@.len() == j,
                forall|k: int| 0 <= k <= m ==> prev@[k] == edit_distance(pattern@.subrange(0, k), text@.subrange(0, i - 1)),
                forall|k: int| 0 <= k < j ==> cur@[k] == edit_distance(pattern@.subrange(0, k), text@.subrange(0, i as int)),
            decreases m + 1 - j,
        {
            let ghost p = pattern@.subrange(0, j as int);
            let ghost t = text@.subrange(0, i as int);
            proof {
                assert(p.drop_last() =~= pattern@.subrange(0, j - 1));
                assert(t.drop_last() =~= text@.subrange(0, i - 1));
                lemma_distance_bound(p, t.drop_last());
                lemma_distance_bound(p.drop_last(), t);
                lemma_distance_bound(p.drop_last(), t.drop_last());
            }
            let d = if text[i - 1] == pattern[j - 1] {
                prev[j - 1]
            } else {
                let a = cur[j - 1];
                let b = prev[j];
                let c = prev[j - 1];
                let mut best = a;
                if b < best {
                    best = b;
                }
                if c < best {
                    best = c;
                }
                best + 1
            };
            proof {
                assert(d == edit_distance(p, t));
            }
            cur.push(d);
            j = j + 1;
        }
        prev = cur;
        i = i + 1;
    }
    proof {
        assert(pattern@.subrange(0, m as int) =~= pattern@);
        assert(text@.subrange(0, n as int) =~= text@);
    }
    prev[m]
}

} // verus!

//! Bounded (cutoff) Levenshtein distance over character sequences, used by
//! the fuzzy scan.  The two-row dynamic program is proved to compute the
//! textbook recursive edit distance exactly, and the cutoff result is
//! `None` precisely when the true distance exceeds the bound.

use vstd::prelude::*;

verus! {

/// The least of three naturals.
pub open spec fn min3(x: nat, y: nat, z: nat) -> nat {
    if x <= y && x <= z {
        x
    } else if y <= z {
        y
    } else {
        z
    }
}

/// Levenshtein edit distance (insert, delete, substitute, unit costs).
pub open spec fn lev(a: Seq<char>, b: Seq<char>) -> nat
    decreases a.len() + b.len(),
{
    if a.len() == 0 {
        b.len()
    } else if b.len() == 0 {
        a.len()
    } else {
        min3(
            lev(a.drop_last(), b) + 1,
            lev(a, b.drop_last()) + 1,
            lev(a.drop_last(), b.drop_last()) + if a.last() == b.last() {
                0nat
            } else {
                1nat
            },
        )
    }
}

/// The distance never exceeds the longer length.
pub proof fn lemma_lev_le_max(a: Seq<char>, b: Seq<char>)
    ensures
        lev(a, b) <= a.len() || lev(a, b) <= b.len(),
        lev(a, b) <= a.len() + b.len(),
        a.len() >= b.len() ==> lev(a, b) <= a.len(),
        b.len() >= a.len() ==> lev(a, b) <= b.len(),
    decreases a.len() + b.len(),
{
    if a.len() == 0 || b.len() == 0 {
    } else {
        lemma_lev_le_max(a.drop_last(), b);
        lemma_lev_le_max(a, b.drop_last());
        lemma_lev_le_max(a.drop_last(), b.drop_last());
    }
}

/// The distance is at least the difference of the lengths.
pub proof fn lemma_lev_ge_diff(a: Seq<char>, b: Seq<char>)
    ensures
        lev(a, b) >= a.len() - b.len(),
        lev(a, b) >= b.len() - a.len(),
    decreases a.len() + b.len(),
{
    if a.len() == 0 || b.len() == 0 {
    } else {
        lemma_lev_ge_diff(a.drop_last(), b);
        lemma_lev_ge_diff(a, b.drop_last());
        lemma_lev_ge_diff(a.drop_last(), b.drop_last());
    }
}

/// A sequence is at distance zero from itself.
pub proof fn lemma_lev_self(a: Seq<char>)
    ensures
        lev(a, a) == 0,
    decreases a.len(),
{
    if a.len() == 0 {
    } else {
        lemma_lev_self(a.drop_last());
    }
}

/// The recurrence on prefixes that the dynamic program implements.
proof fn lemma_lev_recurrence(a: Seq<char>, b: Seq<char>, i: int, j: int)
    requires
        1 <= i <= a.len(),
        1 <= j <= b.len(),
    ensures
        lev(a.take(i), b.take(j)) == min3(
            lev(a.take(i - 1), b.take(j)) + 1,
            lev(a.take(i), b.take(j - 1)) + 1,
            lev(a.take(i - 1), b.take(j - 1)) + if a[i - 1] == b[j - 1] {
                0nat
            } else {
                1nat
            },
        ),
{
    assert(a.take(i).drop_last() =~= a.take(i - 1));
    assert(b.take(j).drop_last() =~= b.take(j - 1));
    assert(a.take(i).last() == a[i - 1]);
    assert(b.take(j).last() == b[j - 1]);
}

/// An empty prefix is at distance `j` from `b.take(j)`.
proof fn lemma_lev_base(a: Seq<char>, b: Seq<char>, j: int)
    requires
        0 <= j <= b.len(),
    ensures
        lev(a.take(0), b.take(j)) == j,
        lev(b.take(j), a.take(0)) == j,
{
    assert(a.take(0).len() == 0);
    assert(b.take(j).len() == j);
    if j > 0 {
        assert(lev(b.take(j), a.take(0)) == j);
    }
}

/// Whether two character slices hold the same characters.
fn chars_equal(a: &[char], b: &[char]) -> (r: bool)
    ensures
        r == (a@ =~= b@),
{
    if a.len() != b.len() {
        return false;
    }
    let mut i: usize = 0;
    while i < a.len()
        invariant
            a@.len() == b@.len(),
            i <= a@.len(),
            forall|m: int| 0 <= m < i ==> a@[m] == b@[m],
        decreases a@.len() - i,
    {
        if a[i] != b[i] {
            return false;
        }
        i = i + 1;
    }
    true
}

/// The lesser of two cell values.
fn min_u128(x: u128, y: u128) -> (r: u128)
    ensures
        r == if x <= y {
            x
        } else {
            y
        },
{
    if x <= y {
        x
    } else {
        y
    }
}

/// Levenshtein distance of `a` and `b` when it is at most `max_edits`,
/// `None` when it exceeds the bound.  Equal inputs and a length difference
/// beyond the bound are answered without running the dynamic program.
pub fn levenshtein_within(a: &[char], b: &[char], max_edits: usize) -> (r: Option<usize>)
    ensures
        r is Some <==> lev(a@, b@) <= max_edits,
        r is Some ==> r->0 == lev(a@, b@),
{
    if chars_equal(a, b) {
        proof {
            lemma_lev_self(a@);
        }
        return Some(0);
    }
    let la = a.len();
    let lb = b.len();
    if (la > lb && la - lb > max_edits) || (lb > la && lb - la > max_edits) {
        proof {
            lemma_lev_ge_diff(a@, b@);
        }
        return None;
    }
    // two-row dynamic program over prefixes; cells are wide enough that no
    // distance value can overflow them
    let mut prev: Vec<u128> = Vec::new();
    prev.push(0);
    let mut j: usize = 0;
    while j < lb
        invariant
            j <= lb,
            lb == b@.len(),
            prev@.len() == j + 1,
            forall|m: int| 0 <= m <= j ==> prev@[m] == m,
        decreases lb - j,
    {
        j = j + 1;
        prev.push(j as u128);
    }
    proof {
        assert forall|m: int| 0 <= m <= lb implies prev@[m] == lev(a@.take(0), b@.take(m)) by {
            lemma_lev_base(a@, b@, m);
        }
    }
    let mut im1: usize = 0;
    while im1 < la
        invariant
            im1 <= la,
            la == a@.len(),
            lb == b@.len(),
            prev@.len() == lb + 1,
            forall|m: int| 0 <= m <= lb ==> prev@[m] == lev(a@.take(im1 as int), b@.take(m)),
        decreases la - im1,
    {
        let i = im1 + 1;
        let mut cur: Vec<u128> = Vec::new();
        proof {
            lemma_lev_base(b@, a@, i as int);
        }
        cur.push(i as u128);
        let mut jm1: usize = 0;
        while jm1 < lb
            invariant
                1 <= i <= la,
                i == im1 + 1,
                jm1 <= lb,
                la == a@.len(),
                lb == b@.len(),
                prev@.len() == lb + 1,
                forall|m: int| 0 <= m <= lb ==> prev@[m] == lev(a@.take(im1 as int), b@.take(m)),
                cur@.len() == jm1 + 1,
                forall|m: int| 0 <= m <= jm1 ==> cur@[m] == lev(a@.take(i as int), b@.take(m)),
            decreases lb - jm1,
        {
            let j = jm1 + 1;
            proof {
                lemma_lev_recurrence(a@, b@, i as int, j as int);
                lemma_lev_le_max(a@.take(i - 1), b@.take(j as int));
                lemma_lev_le_max(a@.take(i as int), b@.take(j - 1));
                lemma_lev_le_max(a@.take(i - 1), b@.take(j - 1));
            }
            let del = prev[j] + 1;
            let ins = cur[j - 1] + 1;
            let sub = prev[j - 1] + if a[i - 1] == b[j - 1] {
                0
            } else {
                1
            };
            let best = min_u128(del, min_u128(ins, sub));
            proof {
                assert(best == min3(
                    lev(a@.take(i - 1), b@.take(j as int)) + 1,
                    lev(a@.take(i as int), b@.take(j - 1)) + 1,
                    lev(a@.take(i - 1), b@.take(j - 1)) + if a@[i - 1] == b@[j - 1] {
                        0nat
                    } else {
                        1nat
                    },
                ));
            }
            cur.push(best);
            jm1 = j;
        }
        prev = cur;
        im1 = i;
    }
    proof {
        assert(a@.take(la as int) =~= a@);
        assert(b@.take(lb as int) =~= b@);
        lemma_lev_le_max(a@, b@);
    }
    let d = prev[lb];
    if d <= max_edits as u128 {
        Some(d as usize)
    } else {
        None
    }
}

} // verus!

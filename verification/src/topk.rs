//! Ranked top-k selection over `(entry, score key)` pairs.
//!
//! A score key is an unsigned integer that orders entries the way their
//! scores do (larger key, better score); the caller produces it from
//! whatever score it computed.  Results come back sorted by key descending,
//! with ties broken by ascending entry, and they are exactly the k best of
//! the input: anything left out ranks no better than anything kept.

use vstd::multiset::Multiset;
use vstd::prelude::*;

verus! {

broadcast use vstd::seq_lib::group_to_multiset_ensures, vstd::multiset::group_multiset_axioms;

/// `x` is ranked at or before `y`: a larger key wins, equal keys go to the
/// smaller entry.
pub open spec fn ranked_le(x: (u32, u64), y: (u32, u64)) -> bool {
    x.1 > y.1 || (x.1 == y.1 && x.0 <= y.0)
}

/// Sorted by rank: better entries first.
pub open spec fn ranked_sorted(s: Seq<(u32, u64)>) -> bool {
    forall|i: int, j: int| 0 <= i < j < s.len() ==> ranked_le(#[trigger] s[i], #[trigger] s[j])
}

/// A sequence of length zero holds the empty multiset.
proof fn lemma_empty_to_multiset<T>(s: Seq<T>)
    requires
        s.len() == 0,
    ensures
        s.to_multiset() =~= Multiset::<T>::empty(),
{
    assert forall|y: T| s.to_multiset().count(y) == Multiset::<T>::empty().count(y) by {
        assert(s.to_multiset().len() == 0);
        assert(s.to_multiset().count(y) <= s.to_multiset().len());
    }
}

/// `to_multiset` distributes over concatenation.
pub proof fn lemma_to_multiset_add<T>(s1: Seq<T>, s2: Seq<T>)
    ensures
        (s1 + s2).to_multiset() =~= s1.to_multiset().add(s2.to_multiset()),
    decreases s2.len(),
{
    if s2.len() == 0 {
        assert(s1 + s2 =~= s1);
        lemma_empty_to_multiset(s2);
    } else {
        lemma_to_multiset_add(s1, s2.drop_last());
        assert(s1 + s2 =~= (s1 + s2.drop_last()).push(s2.last()));
        assert(s2 =~= s2.drop_last().push(s2.last()));
        assert((s1 + s2).to_multiset() =~= (s1 + s2.drop_last()).to_multiset().insert(s2.last()));
        assert(s2.to_multiset() =~= s2.drop_last().to_multiset().insert(s2.last()));
    }
}

/// Inserting into a sequence inserts into its multiset.
proof fn lemma_insert_to_multiset<T>(s: Seq<T>, p: int, x: T)
    requires
        0 <= p <= s.len(),
    ensures
        s.insert(p, x).to_multiset() =~= s.to_multiset().insert(x),
{
    let r = s.insert(p, x);
    assert(r.remove(p) =~= s);
    assert(r[p] == x);
    assert(r.to_multiset().remove(x) =~= s.to_multiset());
    assert(r.contains(x));
    assert(r.to_multiset().count(x) > 0);
    assert forall|y: T| r.to_multiset().count(y) == s.to_multiset().insert(x).count(y) by {
        assert(r.to_multiset().remove(x).count(y) == s.to_multiset().count(y));
    }
}

/// Insert `x` into a rank-sorted vector, keeping it sorted.
fn insert_ranked(v: &mut Vec<(u32, u64)>, x: (u32, u64))
    requires
        ranked_sorted(old(v)@),
        old(v)@.len() < usize::MAX,
    ensures
        ranked_sorted(final(v)@),
        final(v)@.len() == old(v)@.len() + 1,
        final(v)@.to_multiset() =~= old(v)@.to_multiset().insert(x),
{
    let ghost orig = v@;
    let mut p: usize = 0;
    while p < v.len() && (v[p].1 > x.1 || (v[p].1 == x.1 && v[p].0 <= x.0))
        invariant
            v@ == orig,
            p <= v@.len(),
            forall|m: int| 0 <= m < p ==> ranked_le(#[trigger] v@[m], x),
        decreases v@.len() - p,
    {
        p = p + 1;
    }
    v.insert(p, x);
    proof {
        lemma_insert_to_multiset(orig, p as int, x);
        assert forall|i: int, j: int| 0 <= i < j < v@.len() implies ranked_le(
            #[trigger] v@[i],
            #[trigger] v@[j],
        ) by {
            if j < p {
                assert(v@[i] == orig[i] && v@[j] == orig[j]);
            } else if j == p {
                assert(v@[i] == orig[i]);
                assert(ranked_le(orig[i], x));
            } else {
                // j > p: v@[j] == orig[j - 1]
                assert(v@[j] == orig[j - 1]);
                if i < p {
                    assert(v@[i] == orig[i]);
                    assert(ranked_le(orig[i], orig[j - 1]));
                } else if i == p {
                    // x goes strictly before orig[p]
                    if p < orig.len() {
                        assert(!ranked_le(orig[p as int], x));
                        assert(ranked_le(x, orig[p as int]));
                        if p < j - 1 {
                            assert(ranked_le(orig[p as int], orig[j - 1]));
                        }
                    }
                } else {
                    assert(v@[i] == orig[i - 1]);
                    assert(ranked_le(orig[i - 1], orig[j - 1]));
                }
            }
        }
    }
}

/// What it means for `r` to be the ranked top `k` of `scored`: the right
/// length, sorted by rank, drawn from the input (as a multiset), and
/// dominating everything it leaves out — any pair of the input that is not
/// kept (counting multiplicity) ranks at or after every pair that is kept.
pub open spec fn is_top_k(scored: Seq<(u32, u64)>, r: Seq<(u32, u64)>, k: int) -> bool {
    &&& r.len() == if k <= scored.len() {
        k
    } else {
        scored.len() as int
    }
    &&& ranked_sorted(r)
    &&& r.to_multiset().subset_of(scored.to_multiset())
    &&& forall|x: (u32, u64), i: int|
        #![trigger scored.to_multiset().count(x), r[i]]
        scored.to_multiset().count(x) > r.to_multiset().count(x) && 0 <= i < r.len()
            ==> ranked_le(r[i], x)
}

/// No two pairs carry the same entry.
pub open spec fn distinct_entries(s: Seq<(u32, u64)>) -> bool {
    forall|i: int, j: int| 0 <= i < j < s.len() ==> (#[trigger] s[i]).0 != (#[trigger] s[j]).0
}

/// A sequence with two equal indices counts its value at least twice.
proof fn lemma_dup_count(s: Seq<(u32, u64)>, i: int, j: int)
    requires
        0 <= i < j < s.len(),
        s[i] == s[j],
    ensures
        s.to_multiset().count(s[i]) >= 2,
{
    let t = s.remove(j);
    assert(t.to_multiset() =~= s.to_multiset().remove(s[j]));
    assert(t[i] == s[i]);
    assert(t.contains(s[i]));
    assert(t.to_multiset().count(s[i]) > 0);
}

/// A value counted twice sits at two distinct indices.
proof fn lemma_count_dup(s: Seq<(u32, u64)>, x: (u32, u64))
    requires
        s.to_multiset().count(x) >= 2,
    ensures
        exists|i: int, j: int|
            #![trigger s[i], s[j]]
            0 <= i < j < s.len() && s[i] == x && s[j] == x,
{
    assert(s.to_multiset().count(x) > 0);
    assert(s.contains(x));
    let i = choose|i: int| 0 <= i < s.len() && s[i] == x;
    let t = s.remove(i);
    assert(t.to_multiset() =~= s.to_multiset().remove(s[i]));
    assert(t.to_multiset().count(x) > 0);
    assert(t.contains(x));
    let j0 = choose|j: int| 0 <= j < t.len() && t[j] == x;
    if j0 < i {
        assert(s[j0] == t[j0]);
        assert(0 <= j0 < i < s.len() && s[j0] == x && s[i] == x);
    } else {
        assert(s[j0 + 1] == t[j0]);
        assert(0 <= i < j0 + 1 < s.len() && s[i] == x && s[j0 + 1] == x);
    }
}

/// A sub-multiset of a sequence with pairwise distinct entries has
/// pairwise distinct entries itself.
pub proof fn lemma_submultiset_distinct(small: Seq<(u32, u64)>, big: Seq<(u32, u64)>)
    requires
        small.to_multiset().subset_of(big.to_multiset()),
        distinct_entries(big),
    ensures
        distinct_entries(small),
{
    assert forall|i: int, j: int|
        0 <= i < j < small.len() implies (#[trigger] small[i]).0 != (#[trigger] small[j]).0 by {
        if small[i].0 == small[j].0 {
            let x = small[i];
            let y = small[j];
            if x == y {
                lemma_dup_count(small, i, j);
                assert(big.to_multiset().count(x) >= 2);
                lemma_count_dup(big, x);
                let (bi, bj) = choose|bi: int, bj: int|
                    #![trigger big[bi], big[bj]]
                    0 <= bi < bj < big.len() && big[bi] == x && big[bj] == x;
                assert(big[bi].0 == big[bj].0);
            } else {
                assert(small.to_multiset().count(x) > 0);
                assert(small.to_multiset().count(y) > 0);
                assert(big.to_multiset().count(x) > 0);
                assert(big.to_multiset().count(y) > 0);
                assert(big.contains(x));
                assert(big.contains(y));
                let bi = choose|b: int| 0 <= b < big.len() && big[b] == x;
                let bj = choose|b: int| 0 <= b < big.len() && big[b] == y;
                assert(big[bi].0 == big[bj].0 && bi != bj);
            }
        }
    }
}

/// The `top_k` best-ranked pairs of `scored`, best first.
pub fn rank_top_k(scored: &Vec<(u32, u64)>, top_k: usize) -> (r: Vec<(u32, u64)>)
    ensures
        is_top_k(scored@, r@, top_k as int),
        distinct_entries(scored@) ==> distinct_entries(r@),
{
    let mut sorted: Vec<(u32, u64)> = Vec::new();
    let mut i: usize = 0;
    proof {
        lemma_empty_to_multiset(sorted@);
        lemma_empty_to_multiset(scored@.take(0));
    }
    while i < scored.len()
        invariant
            i <= scored@.len(),
            sorted@.len() == i,
            ranked_sorted(sorted@),
            sorted@.to_multiset() =~= scored@.take(i as int).to_multiset(),
        decreases scored@.len() - i,
    {
        let x = scored[i];
        insert_ranked(&mut sorted, x);
        proof {
            assert(scored@.take(i + 1) =~= scored@.take(i as int).push(x));
            assert(scored@.take(i + 1).to_multiset() =~= scored@.take(
                i as int,
            ).to_multiset().insert(x));
        }
        i = i + 1;
    }
    proof {
        assert(scored@.take(scored@.len() as int) =~= scored@);
    }
    let ghost full = sorted@;
    if top_k < sorted.len() {
        sorted.truncate(top_k);
    }
    proof {
        let k = sorted@.len() as int;
        assert(sorted@ =~= full.take(k));
        let dropped = full.skip(k);
        assert(full =~= full.take(k) + dropped);
        lemma_to_multiset_add(full.take(k), dropped);
        assert(scored@.to_multiset() =~= sorted@.to_multiset().add(dropped.to_multiset()));
        assert forall|y: (u32, u64)|
            sorted@.to_multiset().count(y) <= scored@.to_multiset().count(y) by {}
        assert forall|x: (u32, u64), i: int|
            #![trigger scored@.to_multiset().count(x), sorted@[i]]
            scored@.to_multiset().count(x) > sorted@.to_multiset().count(x) && 0 <= i
                < sorted@.len() implies ranked_le(sorted@[i], x) by {
            assert(dropped.to_multiset().count(x) > 0);
            assert(dropped.contains(x));
            let d = choose|d: int| 0 <= d < dropped.len() && dropped[d] == x;
            assert(full[k + d] == x);
            assert(ranked_le(full[i], full[k + d]));
        }
        if distinct_entries(scored@) {
            lemma_submultiset_distinct(sorted@, scored@);
        }
    }
    sorted
}

} // verus!

//! Reciprocal Rank Fusion over two ranked entry lists.
//!
//! Each list position contributes `1/(61 + rank)` (rank counted from
//! zero).  The contribution is carried as the exact integer
//! `⌊2^32 / (61 + rank)⌋`, so fusing and ranking stay in integers and are
//! verified; the application divides by `2^32` when it reports a score.
//! The max-normalised fusion variants (CombSUM and weighted sum) divide
//! floating-point scores and belong to the application.

use crate::topk::distinct_entries;
use crate::topk::is_top_k;
use crate::topk::rank_top_k;
use vstd::prelude::*;

verus! {

/// The fused-score contribution of rank `r` (0-based), scaled by 2^32.
pub open spec fn rrf_part(rank: int) -> int {
    0x100000000int / (61 + rank)
}

/// The first position of `e` in `list`.
pub open spec fn index_of_entry(list: Seq<u32>, e: u32) -> Option<int>
    decreases list.len(),
{
    if list.len() == 0 {
        None
    } else if list[0] == e {
        Some(0int)
    } else {
        match index_of_entry(list.drop_first(), e) {
            Some(k) => Some(k + 1),
            None => None,
        }
    }
}

/// The fused key of an entry found at `tr` in the text list and `vr` in
/// the vector list.
pub open spec fn rrf_key(tr: Option<int>, vr: Option<int>) -> int {
    (match tr {
        Some(i) => rrf_part(i),
        None => 0int,
    }) + (match vr {
        Some(j) => rrf_part(j),
        None => 0int,
    })
}

/// The fused pairs contributed by the text list from rank `i` on.
pub open spec fn rrf_text_part(text: Seq<u32>, vec: Seq<u32>, i: int) -> Seq<(u32, u64)>
    decreases text.len() - i,
{
    if i < 0 || i >= text.len() {
        Seq::empty()
    } else {
        seq![(text[i], rrf_key(Some(i), index_of_entry(vec, text[i])) as u64)] + rrf_text_part(
            text,
            vec,
            i + 1,
        )
    }
}

/// The fused pairs contributed by vector-only entries from rank `j` on.
pub open spec fn rrf_vec_part(text: Seq<u32>, vec: Seq<u32>, j: int) -> Seq<(u32, u64)>
    decreases vec.len() - j,
{
    if j < 0 || j >= vec.len() {
        Seq::empty()
    } else {
        let rest = rrf_vec_part(text, vec, j + 1);
        if index_of_entry(text, vec[j]) is None {
            seq![(vec[j], rrf_key(None, Some(j)) as u64)] + rest
        } else {
            rest
        }
    }
}

/// All fused pairs: text entries in rank order, then vector-only entries.
pub open spec fn rrf_scored(text: Seq<u32>, vec: Seq<u32>) -> Seq<(u32, u64)> {
    rrf_text_part(text, vec, 0) + rrf_vec_part(text, vec, 0)
}

/// The first hit of a scan is the first index.
proof fn lemma_index_of_first(list: Seq<u32>, e: u32, i: int)
    requires
        0 <= i <= list.len(),
        forall|m: int| 0 <= m < i ==> list[m] != e,
        i < list.len() ==> list[i] == e,
    ensures
        index_of_entry(list, e) == if i < list.len() {
            Some(i)
        } else {
            None::<int>
        },
    decreases i,
{
    if i == 0 {
        if list.len() > 0 && list[0] != e {
            // i == 0 == list.len() is the only consistent reading
        }
    } else {
        assert(list[0] != e);
        lemma_index_of_first(list.drop_first(), e, i - 1);
        assert(forall|m: int| 0 <= m < i - 1 ==> list.drop_first()[m] == list[m + 1]);
    }
}

/// Find the first position of `e` in `list`.
fn find_entry(list: &Vec<u32>, e: u32) -> (r: Option<usize>)
    ensures
        match r {
            Some(p) => index_of_entry(list@, e) == Some(p as int),
            None => index_of_entry(list@, e) is None,
        },
{
    let mut i: usize = 0;
    while i < list.len()
        invariant
            i <= list@.len(),
            forall|m: int| 0 <= m < i ==> list@[m] != e,
        decreases list@.len() - i,
    {
        if list[i] == e {
            proof {
                lemma_index_of_first(list@, e, i as int);
            }
            return Some(i);
        }
        i = i + 1;
    }
    proof {
        lemma_index_of_first(list@, e, list@.len() as int);
    }
    None
}

/// The scaled reciprocal of `61 + rank`.
fn rrf_part_exec(rank: usize) -> (r: u64)
    ensures
        r == rrf_part(rank as int),
        r <= 0x100000000,
{
    proof {
        assert(0x100000000int / (61 + rank as int) <= 0x100000000int) by (nonlinear_arith)
            requires
                rank >= 0,
        ;
        assert(0x100000000int / (61 + rank as int) >= 0) by (nonlinear_arith)
            requires
                rank >= 0,
        ;
    }
    (0x100000000u128 / (61 + rank as u128)) as u64
}

/// Reciprocal Rank Fusion: fuse two ranked entry lists and return the
/// `top_k` best by fused key, ties broken by ascending entry.
pub fn rrf_fuse(text: &Vec<u32>, vec: &Vec<u32>, top_k: usize) -> (r: Vec<(u32, u64)>)
    ensures
        is_top_k(rrf_scored(text@, vec@), r@, top_k as int),
{
    let mut scored: Vec<(u32, u64)> = Vec::new();
    let mut i: usize = 0;
    while i < text.len()
        invariant
            i <= text@.len(),
            rrf_text_part(text@, vec@, 0) =~= scored@ + rrf_text_part(text@, vec@, i as int),
        decreases text@.len() - i,
    {
        let e = text[i];
        let tp = rrf_part_exec(i);
        let key = match find_entry(vec, e) {
            Some(j) => tp + rrf_part_exec(j),
            None => tp,
        };
        proof {
            assert(key == rrf_key(Some(i as int), index_of_entry(vec@, e)));
        }
        let ghost old_scored = scored@;
        scored.push((e, key));
        proof {
            assert(old_scored + rrf_text_part(text@, vec@, i as int) =~= scored@ + rrf_text_part(
                text@,
                vec@,
                i + 1,
            ));
        }
        i = i + 1;
    }
    let ghost text_done = scored@;
    proof {
        assert(rrf_text_part(text@, vec@, text@.len() as int) =~= Seq::<(u32, u64)>::empty());
        assert(text_done =~= rrf_text_part(text@, vec@, 0));
    }
    let mut j: usize = 0;
    while j < vec.len()
        invariant
            j <= vec@.len(),
            text_done == rrf_text_part(text@, vec@, 0),
            rrf_text_part(text@, vec@, 0) + rrf_vec_part(text@, vec@, 0) =~= scored@
                + rrf_vec_part(text@, vec@, j as int),
        decreases vec@.len() - j,
    {
        let e = vec[j];
        let ghost old_scored = scored@;
        match find_entry(text, e) {
            Some(_) => {
                proof {
                    assert(rrf_vec_part(text@, vec@, j as int) =~= rrf_vec_part(
                        text@,
                        vec@,
                        j + 1,
                    ));
                }
            },
            None => {
                let key = rrf_part_exec(j);
                proof {
                    assert(key == rrf_key(None, Some(j as int)));
                }
                scored.push((e, key));
                proof {
                    assert(old_scored + rrf_vec_part(text@, vec@, j as int) =~= scored@
                        + rrf_vec_part(text@, vec@, j + 1));
                }
            },
        }
        j = j + 1;
    }
    proof {
        assert(rrf_vec_part(text@, vec@, vec@.len() as int) =~= Seq::<(u32, u64)>::empty());
        assert(scored@ =~= rrf_scored(text@, vec@));
    }
    rank_top_k(&scored, top_k)
}

} // verus!

//! Workload classification for the batch dot-product engine.
//!
//! The kernels themselves are floating point and live with the embedding
//! application; what is decided here — which execution strategy a
//! `(vector_length, num_pairs)` workload gets, whether the caller's buffers
//! are large enough to run at all, and how the pair range is cut into
//! chunks — is exact integer logic and is verified.  Threshold comparisons
//! are carried out in exact rational arithmetic (cross-multiplied), so
//! `mem_gb > 0.1` becomes `80·n·l > 2^30`.

use vstd::prelude::*;

verus! {

/// How a batch dot-product workload is executed.
#[derive(Debug, Clone, Copy, PartialEq, Eq, Structural)]
pub enum Strategy {
    Sequential,
    SequentialCacheFriendly,
    ParallelCacheFriendly,
    ParallelAggressive,
    ParallelStreaming,
}

/// Too small to be worth parallelism: under a million floating-point
/// operations, or under a hundred pairs.
pub open spec fn wants_sequential(n: int, l: int) -> bool {
    2 * n * l < 1000000 || n < 100
}

/// Memory footprint above a tenth of a GiB (8·n·l bytes > 2^30 / 10).
pub open spec fn wants_streaming(n: int, l: int) -> bool {
    80 * n * l > 1073741824
}

/// Compute intensity above half a flop per byte, with one vector staying in
/// a quarter of a 32 KiB L1 cache.  (The intensity of this workload is a
/// fixed quarter flop per byte, so the branch never fires; it is kept
/// because the dispatch rule names it.)
pub open spec fn wants_cache_parallel(n: int, l: int) -> bool {
    2 * (2 * n * l) > 8 * n * l && 4 * l < 8192
}

/// Above ten million floating-point operations.
pub open spec fn wants_aggressive(n: int, l: int) -> bool {
    2 * n * l > 10000000
}

/// The strategy the dispatcher picks for `n` pairs of length `l`:
/// first match wins.
pub open spec fn chosen_strategy(n: int, l: int) -> Strategy {
    if wants_sequential(n, l) {
        Strategy::Sequential
    } else if wants_streaming(n, l) {
        Strategy::ParallelStreaming
    } else if wants_cache_parallel(n, l) {
        Strategy::ParallelCacheFriendly
    } else if wants_aggressive(n, l) {
        Strategy::ParallelAggressive
    } else {
        Strategy::SequentialCacheFriendly
    }
}

/// Workload characteristics, computed once per batch call.
#[derive(Debug, Clone, Copy, PartialEq, Eq, Structural)]
pub struct WorkloadProfile {
    pub vector_length: usize,
    pub num_pairs: usize,
    pub total_flops: usize,
}

impl WorkloadProfile {
    /// The flop count matches the dimensions.
    pub open spec fn wf(&self) -> bool {
        self.total_flops == 2 * self.num_pairs * self.vector_length
    }

    /// Profile a workload: one multiply and one add per element pair.
    pub fn new(vector_length: usize, num_pairs: usize) -> (r: WorkloadProfile)
        requires
            2 * num_pairs * vector_length <= usize::MAX,
        ensures
            r.wf(),
            r.vector_length == vector_length,
            r.num_pairs == num_pairs,
    {
        proof {
            assert(num_pairs * vector_length * 2 == 2 * num_pairs * vector_length
                && num_pairs * vector_length <= 2 * num_pairs * vector_length)
                by (nonlinear_arith)
                requires
                    num_pairs >= 0 && vector_length >= 0,
            ;
        }
        let total_flops = num_pairs * vector_length * 2;
        WorkloadProfile { vector_length, num_pairs, total_flops }
    }

    /// Pick the execution strategy, first matching rule wins.
    pub fn optimal_strategy(&self) -> (s: Strategy)
        requires
            self.wf(),
        ensures
            s == chosen_strategy(self.num_pairs as int, self.vector_length as int),
    {
        let t = self.total_flops as u128;
        let ghost n = self.num_pairs as int;
        let ghost l = self.vector_length as int;
        proof {
            assert(40 * (2 * n * l) == 80 * n * l && 2 * (2 * n * l) == 2 * (2 * (n * l))
                && 8 * n * l == 8 * (n * l) && 4 * (2 * n * l) == 8 * (n * l))
                by (nonlinear_arith);
        }
        if self.total_flops < 1000000 || self.num_pairs < 100 {
            Strategy::Sequential
        } else if 40 * t > 1073741824 {
            Strategy::ParallelStreaming
        } else if 2 * t > 4 * t && self.vector_length < 2048 {
            Strategy::ParallelCacheFriendly
        } else if self.total_flops > 10000000 {
            Strategy::ParallelAggressive
        } else {
            Strategy::SequentialCacheFriendly
        }
    }
}

/// The chunk of the pair range each strategy hands one worker.
pub open spec fn spec_chunk_size(s: Strategy, num_pairs: int, threads: int) -> int {
    match s {
        Strategy::Sequential => num_pairs,
        Strategy::SequentialCacheFriendly => 64,
        Strategy::ParallelCacheFriendly => 256,
        Strategy::ParallelStreaming => 1024,
        Strategy::ParallelAggressive => if num_pairs / (threads * 4) > 16 {
            num_pairs / (threads * 4)
        } else {
            16
        },
    }
}

/// The chunk size for `num_pairs` pairs on `threads` workers.
pub fn strategy_chunk_size(s: Strategy, num_pairs: usize, threads: usize) -> (r: usize)
    requires
        1 <= num_pairs,
        1 <= threads <= usize::MAX / 4,
    ensures
        r == spec_chunk_size(s, num_pairs as int, threads as int),
        1 <= r,
{
    match s {
        Strategy::Sequential => num_pairs,
        Strategy::SequentialCacheFriendly => 64,
        Strategy::ParallelCacheFriendly => 256,
        Strategy::ParallelStreaming => 1024,
        Strategy::ParallelAggressive => {
            let base = num_pairs / (threads * 4);
            if base > 16 {
                base
            } else {
                16
            }
        },
    }
}

/// Cut `0..n` into chunks of `c`: chunk `j` starts at `j·c` and holds
/// `min(c, n − j·c)` indices.  Every index of `0..n` lies in exactly one
/// chunk (see `lemma_chunks_cover`).
pub fn chunk_ranges(n: usize, c: usize) -> (r: Vec<(usize, usize)>)
    requires
        1 <= c,
    ensures
        r@.len() == if n as int % c as int == 0 {
            n as int / c as int
        } else {
            n as int / c as int + 1
        },
        forall|j: int|
            0 <= j < r@.len() ==> (#[trigger] r@[j]).0 == j * c && r@[j].1 == if j * c + c
                <= n {
                c as int
            } else {
                n - j * c
            },
        forall|j: int| 0 <= j < r@.len() ==> 1 <= (#[trigger] r@[j]).1 <= c,
{
    let mut r: Vec<(usize, usize)> = Vec::new();
    let mut start: usize = 0;
    proof {
        assert(0 * c as int == 0) by (nonlinear_arith);
        assert(0int % c as int == 0 && 0int / c as int == 0) by (nonlinear_arith)
            requires
                c >= 1,
        ;
    }
    while start < n
        invariant
            1 <= c,
            start <= n,
            start < n ==> start == r@.len() * c,
            forall|j: int|
                0 <= j < r@.len() ==> (#[trigger] r@[j]).0 == j * c && r@[j].1 == if j * c + c
                    <= n {
                    c as int
                } else {
                    n - j * c
                },
            forall|j: int| 0 <= j < r@.len() ==> 1 <= (#[trigger] r@[j]).1 <= c,
            start < n ==> r@.len() == start as int / c as int && start as int % c as int == 0,
            start >= n ==> r@.len() == if n as int % c as int == 0 {
                n as int / c as int
            } else {
                n as int / c as int + 1
            },
        decreases n - start,
    {
        let len = if n - start >= c {
            c
        } else {
            n - start
        };
        let ghost old_r = r@;
        r.push((start, len));
        proof {
            assert(old_r.len() * c + c == r@.len() * c) by (nonlinear_arith)
                requires
                    r@.len() == old_r.len() + 1,
            ;
            lemma_chunk_count(n as int, c as int, start as int, r@.len() as int);
        }
        start = if n - start >= c {
            start + c
        } else {
            n
        };
    }
    proof {
        if n == 0 {
            assert(n % c == 0 && n / c == 0) by (nonlinear_arith)
                requires
                    n == 0 && c >= 1,
            ;
        }
    }
    r
}

/// Arithmetic for the chunk counter: after pushing the chunk that starts at
/// `start`, the number of chunks so far is consistent with the final count.
proof fn lemma_chunk_count(n: int, c: int, start: int, k: int)
    requires
        1 <= c,
        0 <= start < n,
        start == (k - 1) * c,
        k >= 1,
    ensures
        start + c < n ==> (k == (start + c) / c && (start + c) % c == 0),
        start + c >= n ==> k == if n % c == 0 {
            n / c
        } else {
            n / c + 1
        },
{
    assert(((k - 1) * c + c) == k * c) by (nonlinear_arith);
    assert((k * c) / c == k && (k * c) % c == 0) by (nonlinear_arith)
        requires
            c >= 1,
    ;
    if start + c >= n {
        // n lies in ((k-1)·c, k·c]
        assert(n % c == 0 ==> n / c == k) by (nonlinear_arith)
            requires
                c >= 1 && (k - 1) * c < n <= k * c,
        ;
        assert(n % c != 0 ==> n / c + 1 == k) by (nonlinear_arith)
            requires
                c >= 1 && (k - 1) * c < n <= k * c,
        ;
    }
}

/// Every pair index lies in exactly one chunk: chunk `idx / c` and no other.
pub proof fn lemma_chunks_cover(n: int, c: int, idx: int)
    requires
        1 <= c,
        0 <= idx < n,
    ensures
        (idx / c) * c <= idx < (idx / c) * c + c,
        forall|j: int|
            j != idx / c ==> !(#[trigger] (j * c) <= idx && idx < j * c + c),
{
    vstd::arithmetic::div_mod::lemma_fundamental_div_mod(idx, c);
    vstd::arithmetic::div_mod::lemma_mod_bound(idx, c);
    assert((idx / c) * c == c * (idx / c)) by (nonlinear_arith);
    assert forall|j: int| j != idx / c implies !(#[trigger] (j * c) <= idx && idx < j * c + c) by {
        if j * c <= idx && idx < j * c + c {
            assert((j * c + (idx - j * c)) / c == j) by (nonlinear_arith)
                requires
                    c >= 1 && 0 <= idx - j * c < c,
            ;
        }
    }
}

} // verus!

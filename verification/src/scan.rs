//! The flat scan store: one normalized text blob per document, scanned for
//! substring and bounded-edit fuzzy matches.
//!
//! Normalization lowercases the document text and keeps only alphanumeric
//! runs, joined by single blanks.  Scores are exact parts-per-million
//! integers (1 000 000 stands for a score of 1.0), so ranking needs no
//! floating point and is verified end to end.

use crate::lev::lev;
use crate::lev::levenshtein_within;
use crate::tokenize::is_alnum_char;
use crate::tokenize::join_space;
use crate::tokenize::lower_of;
use crate::tokenize::str_chars;
use crate::topk::is_top_k;
use crate::topk::rank_top_k;
use vstd::prelude::*;

verus! {

// ---------------------------------------------------------------------------
// normalization
// ---------------------------------------------------------------------------

/// The maximal alphanumeric runs of `s` from position `i` on.
pub open spec fn alnum_runs_from(s: Seq<char>, i: int) -> Seq<Seq<char>>
    decreases s.len() - i,
{
    if i < 0 || i >= s.len() {
        Seq::empty()
    } else {
        let rest = alnum_runs_from(s, i + 1);
        if !is_alnum_char(s[i]) {
            rest
        } else {
            if i + 1 < s.len() && is_alnum_char(s[i + 1]) {
                rest.update(0, seq![s[i]] + rest[0])
            } else {
                seq![seq![s[i]]] + rest
            }
        }
    }
}

/// The maximal alphanumeric runs of `s`, in order.
pub open spec fn alnum_runs(s: Seq<char>) -> Seq<Seq<char>> {
    alnum_runs_from(s, 0)
}

/// The normalized blob of a text: lowercased, alphanumeric-only words,
/// single-blank separated.
pub open spec fn normal_of(s: Seq<char>) -> Seq<char> {
    join_space(alnum_runs(lower_of(s)))
}

/// Collecting a maximal alphanumeric run `[i, j)` yields one word.
proof fn lemma_run_collect(s: Seq<char>, i: int, j: int)
    requires
        0 <= i < j <= s.len(),
        forall|m: int| i <= m < j ==> is_alnum_char(#[trigger] s[m]),
        j == s.len() || !is_alnum_char(s[j]),
    ensures
        alnum_runs_from(s, i) =~= seq![s.subrange(i, j)] + alnum_runs_from(s, j),
    decreases j - i,
{
    if i + 1 == j {
        assert(s.subrange(i, j) =~= seq![s[i]]);
    } else {
        lemma_run_collect(s, i + 1, j);
        let rest = alnum_runs_from(s, i + 1);
        assert(rest[0] == s.subrange(i + 1, j));
        assert(seq![s[i]] + s.subrange(i + 1, j) =~= s.subrange(i, j));
        assert(alnum_runs_from(s, i) =~= rest.update(0, seq![s[i]] + rest[0]));
        assert(rest.update(0, s.subrange(i, j)) =~= seq![s.subrange(i, j)] + alnum_runs_from(
            s,
            j,
        ));
    }
}

/// Lowercase a text and break it into its alphanumeric runs, returning the
/// joined blob and the runs themselves.  Every run is non-empty.
pub fn normalize_parts(text: &str) -> (r: (Vec<char>, Vec<Vec<char>>))
    ensures
        r.0@ =~= normal_of(text@),
        r.1@.map_values(|w: Vec<char>| w@) =~= alnum_runs(lower_of(text@)),
        forall|t: int| 0 <= t < r.1@.len() ==> (#[trigger] r.1@[t])@.len() >= 1,
{
    let lowered = crate::tokenize::lowercase(text);
    let chars = str_chars(lowered.as_str());
    let n = chars.len();
    let ghost low = lower_of(text@);
    // phase 1: collect the alphanumeric runs
    let mut runs: Vec<Vec<char>> = Vec::new();
    let mut i: usize = 0;
    while i < n
        invariant
            i <= n,
            n == chars@.len(),
            chars@ == low,
            alnum_runs(low) =~= runs@.map_values(|w: Vec<char>| w@) + alnum_runs_from(
                low,
                i as int,
            ),
            forall|t: int| 0 <= t < runs@.len() ==> (#[trigger] runs@[t])@.len() >= 1,
        decreases n - i,
    {
        if !crate::tokenize::char_is_alphanumeric(chars[i]) {
            i = i + 1;
        } else {
            let start = i;
            let mut w: Vec<char> = Vec::new();
            w.push(chars[i]);
            i = i + 1;
            while i < n && crate::tokenize::char_is_alphanumeric(chars[i])
                invariant
                    start < i <= n,
                    n == chars@.len(),
                    chars@ == low,
                    w@ =~= low.subrange(start as int, i as int),
                    forall|m: int| start <= m < i ==> is_alnum_char(#[trigger] low[m]),
                decreases n - i,
            {
                w.push(chars[i]);
                proof {
                    assert(w@ =~= low.subrange(start as int, i + 1));
                }
                i = i + 1;
            }
            proof {
                lemma_run_collect(low, start as int, i as int);
            }
            let ghost old_runs = runs@;
            runs.push(w);
            proof {
                assert(runs@.map_values(|w: Vec<char>| w@) =~= old_runs.map_values(
                    |w: Vec<char>| w@,
                ).push(w@));
                assert(old_runs.map_values(|w: Vec<char>| w@).push(w@) =~= old_runs.map_values(
                    |w: Vec<char>| w@,
                ) + seq![w@]);
                assert((old_runs.map_values(|w: Vec<char>| w@) + seq![w@]) + alnum_runs_from(
                    low,
                    i as int,
                ) =~= old_runs.map_values(|w: Vec<char>| w@) + (seq![w@] + alnum_runs_from(
                    low,
                    i as int,
                )));
            }
        }
    }
    let ghost run_views = runs@.map_values(|w: Vec<char>| w@);
    proof {
        assert(alnum_runs_from(low, n as int) =~= Seq::<Seq<char>>::empty());
        assert(alnum_runs(low) =~= run_views);
    }
    // phase 2: join with single blanks
    let mut blob: Vec<char> = Vec::new();
    let mut t: usize = 0;
    while t < runs.len()
        invariant
            t <= runs@.len(),
            run_views == runs@.map_values(|w: Vec<char>| w@),
            blob@ =~= join_space(run_views.take(t as int)),
        decreases runs@.len() - t,
    {
        if t > 0 {
            blob.push(' ');
        }
        let ghost mid = blob@;
        let word = &runs[t];
        let mut m: usize = 0;
        while m < word.len()
            invariant
                m <= word@.len(),
                word@ == run_views[t as int],
                blob@ =~= mid + word@.take(m as int),
            decreases word@.len() - m,
        {
            blob.push(word[m]);
            proof {
                assert(blob@ =~= mid + word@.take(m + 1));
            }
            m = m + 1;
        }
        proof {
            assert(word@.take(word@.len() as int) =~= word@);
            let upto = run_views.take(t + 1);
            assert(upto.drop_last() =~= run_views.take(t as int));
            assert(upto.last() == run_views[t as int]);
            if t == 0 {
                assert(blob@ =~= run_views[0]);
                assert(join_space(upto) == upto[0]);
            } else {
                assert(blob@ =~= join_space(run_views.take(t as int)) + seq![' ']
                    + run_views[t as int]);
            }
        }
        t = t + 1;
    }
    proof {
        assert(run_views.take(runs@.len() as int) =~= run_views);
    }
    (blob, runs)
}

// ---------------------------------------------------------------------------
// substring matching
// ---------------------------------------------------------------------------

/// Whether `needle` occurs in `hay` at offset `q`.
pub open spec fn matches_at(hay: Seq<char>, needle: Seq<char>, q: int) -> bool {
    &&& 0 <= q
    &&& q + needle.len() <= hay.len()
    &&& forall|m: int| 0 <= m < needle.len() ==> hay[q + m] == #[trigger] needle[m]
}

/// The first offset at or after `q` where `needle` occurs in `hay`.
pub open spec fn first_match_from(hay: Seq<char>, needle: Seq<char>, q: int) -> Option<int>
    decreases hay.len() - q,
{
    if q < 0 || q + needle.len() > hay.len() {
        None
    } else if matches_at(hay, needle, q) {
        Some(q)
    } else {
        first_match_from(hay, needle, q + 1)
    }
}

/// Find the first occurrence of `needle` in `hay`.
pub fn find_first(hay: &Vec<char>, needle: &Vec<char>) -> (r: Option<usize>)
    ensures
        match r {
            Some(p) => first_match_from(hay@, needle@, 0) == Some(p as int),
            None => first_match_from(hay@, needle@, 0) is None,
        },
{
    let hn = hay.len();
    let nn = needle.len();
    if nn > hn {
        return None;
    }
    let mut q: usize = 0;
    while q <= hn - nn
        invariant
            nn <= hn,
            hn == hay@.len(),
            nn == needle@.len(),
            q <= hn - nn + 1,
            first_match_from(hay@, needle@, 0) == first_match_from(hay@, needle@, q as int),
        decreases hn - nn + 1 - q,
    {
        let mut m: usize = 0;
        let mut hit = true;
        while m < nn && hit
            invariant
                q + nn <= hn,
                hn == hay@.len(),
                nn == needle@.len(),
                m <= nn,
                hit ==> forall|x: int| 0 <= x < m ==> hay@[q + x] == #[trigger] needle@[x],
                !hit ==> !matches_at(hay@, needle@, q as int),
            decreases nn - m + if hit {
                1int
            } else {
                0int
            },
        {
            if hay[q + m] != needle[m] {
                hit = false;
            } else {
                m = m + 1;
            }
        }
        if hit {
            proof {
                assert(matches_at(hay@, needle@, q as int));
            }
            return Some(q);
        }
        q = q + 1;
    }
    None
}

/// The substring score in parts per million: 1 plus the reciprocal of one
/// more than the match position, so earlier matches score higher.
pub open spec fn sub_score_ppm(pos: int) -> int {
    1000000int + 1000000int / (1 + pos)
}

/// One stored document in the scan store.
#[derive(Debug)]
pub struct ScanEntry {
    pub entry: u32,
    pub blob: Vec<char>,
    pub tokens: Vec<Vec<char>>,
}

/// The substring-scored entries, in store order: a document is kept when
/// its blob contains the query, with a score that prefers early matches.
pub open spec fn scored_substring(entries: Seq<ScanEntry>, q: Seq<char>) -> Seq<(u32, u64)>
    decreases entries.len(),
{
    if entries.len() == 0 {
        Seq::empty()
    } else {
        let rest = scored_substring(entries.drop_first(), q);
        match first_match_from(entries[0].blob@, q, 0) {
            Some(p) => seq![(entries[0].entry, sub_score_ppm(p) as u64)] + rest,
            None => rest,
        }
    }
}

// ---------------------------------------------------------------------------
// fuzzy matching
// ---------------------------------------------------------------------------

/// The edit bound the fuzzy scan actually uses: at most 4.
pub open spec fn clamp_edits(k: int) -> int {
    if k <= 4 {
        k
    } else {
        4
    }
}

/// The candidate a blob token offers a query token: its edit distance when
/// within the bound, with the longer of the two lengths.
pub open spec fn fuzzy_candidate(qt: Seq<char>, bt: Seq<char>, k: int) -> Option<(int, int)> {
    if lev(qt, bt) <= k {
        Some(
            (
                lev(qt, bt) as int,
                if qt.len() >= bt.len() {
                    qt.len() as int
                } else {
                    bt.len() as int
                },
            ),
        )
    } else {
        None
    }
}

/// The better of two candidates: the strictly smaller distance wins, ties
/// keep the earlier.
pub open spec fn better(x: Option<(int, int)>, y: Option<(int, int)>) -> Option<(int, int)> {
    match x {
        None => y,
        Some((d, _ml)) => match y {
            None => x,
            Some((d2, _ml2)) => if d2 < d {
                y
            } else {
                x
            },
        },
    }
}

/// The best candidate over the blob tokens, scanned left to right.
pub open spec fn best_fuzzy(qt: Seq<char>, bts: Seq<Seq<char>>, k: int) -> Option<(int, int)>
    decreases bts.len(),
{
    if bts.len() == 0 {
        None
    } else {
        better(fuzzy_candidate(qt, bts[0], k), best_fuzzy(qt, bts.drop_first(), k))
    }
}

/// Any best candidate has a distance between zero and its length bound,
/// and a positive length bound when the query token is non-empty.
proof fn lemma_best_fuzzy_bounds(qt: Seq<char>, bts: Seq<Seq<char>>, k: int)
    requires
        qt.len() >= 1,
    ensures
        match best_fuzzy(qt, bts, k) {
            Some((d, ml)) => 0 <= d <= ml && 1 <= ml && d <= k,
            None => true,
        },
    decreases bts.len(),
{
    if bts.len() > 0 {
        crate::lev::lemma_lev_le_max(qt, bts[0]);
        lemma_best_fuzzy_bounds(qt, bts.drop_first(), k);
    }
}

/// A query token's score against one document, in parts per million: 1.0
/// when it occurs verbatim in the blob, otherwise graded by the best
/// bounded edit distance over the blob's tokens, otherwise 0.
pub open spec fn fuzzy_token_ppm(qt: Seq<char>, blob: Seq<char>, bts: Seq<Seq<char>>, k: int) -> int {
    if first_match_from(blob, qt, 0) is Some {
        1000000
    } else {
        match best_fuzzy(qt, bts, k) {
            Some((d, ml)) => (ml - d) * 1000000 / ml,
            None => 0,
        }
    }
}

/// The sum of the query tokens' scores against one document.
pub open spec fn fuzzy_total_ppm(
    qts: Seq<Seq<char>>,
    blob: Seq<char>,
    bts: Seq<Seq<char>>,
    k: int,
) -> int
    decreases qts.len(),
{
    if qts.len() == 0 {
        0
    } else {
        fuzzy_token_ppm(qts[0], blob, bts, k) + fuzzy_total_ppm(qts.drop_first(), blob, bts, k)
    }
}

/// A document's fuzzy score: the mean of the token scores, plus a quarter
/// point when the whole normalized query occurs verbatim.
pub open spec fn fuzzy_doc_ppm(
    qts: Seq<Seq<char>>,
    nq: Seq<char>,
    blob: Seq<char>,
    bts: Seq<Seq<char>>,
    k: int,
) -> int {
    fuzzy_total_ppm(qts, blob, bts, k) / (qts.len() as int) + if first_match_from(blob, nq, 0)
        is Some {
        250000int
    } else {
        0int
    }
}

/// The fuzzy-scored entries, in store order: only documents with a
/// positive score survive.
pub open spec fn scored_fuzzy(
    entries: Seq<ScanEntry>,
    qts: Seq<Seq<char>>,
    nq: Seq<char>,
    k: int,
) -> Seq<(u32, u64)>
    decreases entries.len(),
{
    if entries.len() == 0 {
        Seq::empty()
    } else {
        let e = entries[0];
        let rest = scored_fuzzy(entries.drop_first(), qts, nq, k);
        let s = fuzzy_doc_ppm(qts, nq, e.blob@, e.tokens@.map_values(|t: Vec<char>| t@), k);
        if s > 0 {
            seq![(e.entry, s as u64)] + rest
        } else {
            rest
        }
    }
}

/// Substring-scored entries come from the store, so their entry indexes
/// respect any bound the store respects.
pub proof fn lemma_scored_substring_entry_bound(entries: Seq<ScanEntry>, q: Seq<char>, bound: int)
    requires
        forall|e: int| 0 <= e < entries.len() ==> (#[trigger] entries[e]).entry < bound,
    ensures
        forall|i: int|
            0 <= i < scored_substring(entries, q).len() ==> (#[trigger] scored_substring(
                entries,
                q,
            )[i]).0 < bound,
    decreases entries.len(),
{
    if entries.len() > 0 {
        assert(forall|e: int|
            0 <= e < entries.drop_first().len() ==> (#[trigger] entries.drop_first()[e]).entry
                < bound);
        lemma_scored_substring_entry_bound(entries.drop_first(), q, bound);
        let rest = scored_substring(entries.drop_first(), q);
        let whole = scored_substring(entries, q);
        assert forall|i: int| 0 <= i < whole.len() implies (#[trigger] whole[i]).0 < bound by {
            match first_match_from(entries[0].blob@, q, 0) {
                Some(_) => {
                    if i == 0 {
                        assert(whole[0].0 == entries[0].entry);
                    } else {
                        assert(whole[i] == rest[i - 1]);
                    }
                },
                None => {
                    assert(whole[i] == rest[i]);
                },
            }
        }
    }
}

/// Fuzzy-scored entries come from the store, so their entry indexes
/// respect any bound the store respects.
pub proof fn lemma_scored_fuzzy_entry_bound(
    entries: Seq<ScanEntry>,
    qts: Seq<Seq<char>>,
    nq: Seq<char>,
    k: int,
    bound: int,
)
    requires
        forall|e: int| 0 <= e < entries.len() ==> (#[trigger] entries[e]).entry < bound,
    ensures
        forall|i: int|
            0 <= i < scored_fuzzy(entries, qts, nq, k).len() ==> (#[trigger] scored_fuzzy(
                entries,
                qts,
                nq,
                k,
            )[i]).0 < bound,
    decreases entries.len(),
{
    if entries.len() > 0 {
        assert(forall|e: int|
            0 <= e < entries.drop_first().len() ==> (#[trigger] entries.drop_first()[e]).entry
                < bound);
        lemma_scored_fuzzy_entry_bound(entries.drop_first(), qts, nq, k, bound);
        let rest = scored_fuzzy(entries.drop_first(), qts, nq, k);
        let whole = scored_fuzzy(entries, qts, nq, k);
        let e0 = entries[0];
        let sc = fuzzy_doc_ppm(qts, nq, e0.blob@, e0.tokens@.map_values(|t: Vec<char>| t@), k);
        assert forall|i: int| 0 <= i < whole.len() implies (#[trigger] whole[i]).0 < bound by {
            if sc > 0 {
                if i == 0 {
                    assert(whole[0].0 == e0.entry);
                } else {
                    assert(whole[i] == rest[i - 1]);
                }
            } else {
                assert(whole[i] == rest[i]);
            }
        }
    }
}

// ---------------------------------------------------------------------------
// the store
// ---------------------------------------------------------------------------

/// The flat scan store: one normalized blob and its token list per
/// document.
#[derive(Debug)]
pub struct ScanStore {
    pub entries: Vec<ScanEntry>,
}

impl ScanStore {
    /// Every stored token is non-empty.
    pub open spec fn wf(&self) -> bool {
        forall|e: int, t: int|
            0 <= e < self.entries@.len() && 0 <= t < self.entries@[e].tokens@.len()
                ==> (#[trigger] self.entries@[e].tokens@[t])@.len() >= 1
    }

    /// An empty store.
    pub fn new() -> (r: ScanStore)
        ensures
            r.wf(),
            r.entries@.len() == 0,
    {
        ScanStore { entries: Vec::new() }
    }

    /// Normalize a document's concatenated text and store it under its
    /// entry index.
    pub fn add(&mut self, entry: u32, text: &str)
        requires
            old(self).wf(),
        ensures
            final(self).wf(),
            final(self).entries@.len() == old(self).entries@.len() + 1,
            forall|e: int|
                0 <= e < old(self).entries@.len() ==> final(self).entries@[e] == #[trigger] old(
                    self,
                ).entries@[e],
            final(self).entries@.last().entry == entry,
            final(self).entries@.last().blob@ == normal_of(text@),
            final(self).entries@.last().tokens@.map_values(|t: Vec<char>| t@) == alnum_runs(
                lower_of(text@),
            ),
    {
        let (blob, tokens) = normalize_parts(text);
        self.entries.push(ScanEntry { entry, blob, tokens });
    }

    /// The number of stored documents.
    pub fn len(&self) -> (r: usize)
        ensures
            r == self.entries@.len(),
    {
        self.entries.len()
    }

    /// Substring query: the ranked top `top_k` documents whose blob
    /// contains the normalized query, earlier matches preferred.  An empty
    /// normalized query yields no results.
    pub fn search_substring(&self, query: &str, top_k: usize) -> (r: Vec<(u32, u64)>)
        ensures
            normal_of(query@).len() == 0 ==> r@.len() == 0,
            normal_of(query@).len() > 0 ==> is_top_k(
                scored_substring(self.entries@, normal_of(query@)),
                r@,
                top_k as int,
            ),
    {
        let (nq, _) = normalize_parts(query);
        if nq.len() == 0 {
            return Vec::new();
        }
        let mut scored: Vec<(u32, u64)> = Vec::new();
        let mut e: usize = 0;
        let ghost q = normal_of(query@);
        proof {
            assert(self.entries@.skip(0) =~= self.entries@);
        }
        while e < self.entries.len()
            invariant
                e <= self.entries@.len(),
                nq@ == q,
                scored_substring(self.entries@, q) =~= scored@ + scored_substring(
                    self.entries@.skip(e as int),
                    q,
                ),
            decreases self.entries@.len() - e,
        {
            let ghost pending = self.entries@.skip(e as int);
            proof {
                assert(pending[0] == self.entries@[e as int]);
                assert(pending.drop_first() =~= self.entries@.skip(e + 1));
            }
            let ghost old_scored = scored@;
            match find_first(&self.entries[e].blob, &nq) {
                Some(p) => {
                    proof {
                        assert(1000000int / (1 + p as int) <= 1000000int) by (nonlinear_arith);
                    }
                    let score = (1000000u128 + 1000000u128 / (1 + p as u128)) as u64;
                    scored.push((self.entries[e].entry, score));
                    proof {
                        assert(score == sub_score_ppm(p as int));
                        assert(old_scored + scored_substring(pending, q) =~= scored@
                            + scored_substring(self.entries@.skip(e + 1), q));
                    }
                },
                None => {
                    proof {
                        assert(scored_substring(pending, q) =~= scored_substring(
                            self.entries@.skip(e + 1),
                            q,
                        ));
                    }
                },
            }
            e = e + 1;
        }
        proof {
            assert(self.entries@.skip(self.entries@.len() as int)
                =~= Seq::<ScanEntry>::empty());
            assert(scored@ =~= scored_substring(self.entries@, q));
        }
        rank_top_k(&scored, top_k)
    }

    /// Fuzzy query: the ranked top `top_k` documents by mean bounded-edit
    /// token score, `max_edits` clamped to 4.  A query with no alphanumeric
    /// tokens yields no results.
    pub fn search_fuzzy(&self, query: &str, top_k: usize, max_edits: usize) -> (r: Vec<
        (u32, u64),
    >)
        requires
            self.wf(),
        ensures
            alnum_runs(lower_of(query@)).len() == 0 ==> r@.len() == 0,
            alnum_runs(lower_of(query@)).len() > 0 ==> is_top_k(
                scored_fuzzy(
                    self.entries@,
                    alnum_runs(lower_of(query@)),
                    normal_of(query@),
                    clamp_edits(max_edits as int),
                ),
                r@,
                top_k as int,
            ),
    {
        let kk: usize = if max_edits <= 4 {
            max_edits
        } else {
            4
        };
        let (nq, qtokens) = normalize_parts(query);
        if qtokens.len() == 0 {
            return Vec::new();
        }
        let ghost qts = alnum_runs(lower_of(query@));
        let ghost nqv = normal_of(query@);
        let mut scored: Vec<(u32, u64)> = Vec::new();
        let mut e: usize = 0;
        proof {
            assert(self.entries@.skip(0) =~= self.entries@);
        }
        while e < self.entries.len()
            invariant
                self.wf(),
                e <= self.entries@.len(),
                kk <= 4,
                kk == if max_edits <= 4 {
                    max_edits as int
                } else {
                    4
                },
                nq@ == nqv,
                qtokens@.map_values(|t: Vec<char>| t@) == qts,
                qts.len() == qtokens@.len() > 0,
                forall|t: int| 0 <= t < qtokens@.len() ==> (#[trigger] qtokens@[t])@.len() >= 1,
                scored_fuzzy(self.entries@, qts, nqv, kk as int) =~= scored@ + scored_fuzzy(
                    self.entries@.skip(e as int),
                    qts,
                    nqv,
                    kk as int,
                ),
            decreases self.entries@.len() - e,
        {
            let ghost pending = self.entries@.skip(e as int);
            proof {
                assert(pending[0] == self.entries@[e as int]);
                assert(pending.drop_first() =~= self.entries@.skip(e + 1));
            }
            let ghost old_scored = scored@;
            let s = fuzzy_doc_score(&qtokens, &nq, &self.entries[e], kk);
            if s > 0 {
                scored.push((self.entries[e].entry, s));
                proof {
                    assert(old_scored + scored_fuzzy(pending, qts, nqv, kk as int) =~= scored@
                        + scored_fuzzy(self.entries@.skip(e + 1), qts, nqv, kk as int));
                }
            } else {
                proof {
                    assert(scored_fuzzy(pending, qts, nqv, kk as int) =~= scored_fuzzy(
                        self.entries@.skip(e + 1),
                        qts,
                        nqv,
                        kk as int,
                    ));
                }
            }
            e = e + 1;
        }
        proof {
            assert(self.entries@.skip(self.entries@.len() as int)
                =~= Seq::<ScanEntry>::empty());
            assert(scored@ =~= scored_fuzzy(self.entries@, qts, nqv, kk as int));
        }
        rank_top_k(&scored, top_k)
    }
}

/// The best fuzzy candidate a document's tokens offer one query token,
/// scanned in order with an early exit on an exact match.
fn best_fuzzy_match(qt: &Vec<char>, bts: &Vec<Vec<char>>, kk: usize) -> (r: Option<(u64, u64)>)
    requires
        qt@.len() >= 1,
        forall|t: int| 0 <= t < bts@.len() ==> (#[trigger] bts@[t])@.len() >= 1,
    ensures
        match r {
            Some((d, ml)) => best_fuzzy(qt@, bts@.map_values(|t: Vec<char>| t@), kk as int)
                == Some((d as int, ml as int)),
            None => best_fuzzy(qt@, bts@.map_values(|t: Vec<char>| t@), kk as int) is None,
        },
{
    let ghost views = bts@.map_values(|t: Vec<char>| t@);
    let mut acc: Option<(u64, u64)> = None;
    let mut t: usize = 0;
    proof {
        assert(views.skip(0) =~= views);
    }
    while t < bts.len()
        invariant
            t <= bts@.len(),
            views == bts@.map_values(|t: Vec<char>| t@),
            qt@.len() >= 1,
            match acc {
                Some((d, ml)) => d > 0 && best_fuzzy(qt@, views, kk as int) == better(
                    Some((d as int, ml as int)),
                    best_fuzzy(qt@, views.skip(t as int), kk as int),
                ),
                None => best_fuzzy(qt@, views, kk as int) == best_fuzzy(
                    qt@,
                    views.skip(t as int),
                    kk as int,
                ),
            },
        decreases bts@.len() - t,
    {
        let ghost pending = views.skip(t as int);
        proof {
            assert(pending[0] == views[t as int]);
            assert(pending.drop_first() =~= views.skip(t + 1));
        }
        let bt = &bts[t];
        let ml: u64 = if qt.len() >= bt.len() {
            qt.len() as u64
        } else {
            bt.len() as u64
        };
        let cand = levenshtein_within(qt.as_slice(), bt.as_slice(), kk);
        proof {
            lemma_best_fuzzy_nonneg(qt@, views.skip(t + 1), kk as int);
        }
        match cand {
            Some(d) => {
                if d == 0 {
                    // an exact match cannot be beaten: the rest of the scan
                    // cannot lower the distance below zero
                    proof {
                        assert(fuzzy_candidate(qt@, pending[0], kk as int) == Some(
                            (0int, ml as int),
                        ));
                        assert(best_fuzzy(qt@, pending, kk as int) == Some((0int, ml as int)));
                    }
                    return Some((0, ml));
                }
                let d64 = d as u64;
                match acc {
                    Some((da, _mla)) => {
                        if d64 < da {
                            acc = Some((d64, ml));
                        }
                    },
                    None => {
                        acc = Some((d64, ml));
                    },
                }
                proof {
                    assert(fuzzy_candidate(qt@, pending[0], kk as int) == Some(
                        (d as int, ml as int),
                    ));
                }
            },
            None => {
                proof {
                    assert(fuzzy_candidate(qt@, pending[0], kk as int) is None);
                }
            },
        }
        t = t + 1;
    }
    proof {
        assert(views.skip(views.len() as int) =~= Seq::<Seq<char>>::empty());
    }
    acc
}

/// Any best candidate's distance is non-negative.
proof fn lemma_best_fuzzy_nonneg(qt: Seq<char>, bts: Seq<Seq<char>>, k: int)
    ensures
        match best_fuzzy(qt, bts, k) {
            Some((d, _ml)) => d >= 0,
            None => true,
        },
    decreases bts.len(),
{
    if bts.len() > 0 {
        lemma_best_fuzzy_nonneg(qt, bts.drop_first(), k);
    }
}

/// One document's fuzzy score against the query tokens, in parts per
/// million.
fn fuzzy_doc_score(qtokens: &Vec<Vec<char>>, nq: &Vec<char>, entry: &ScanEntry, kk: usize) -> (r:
    u64)
    requires
        qtokens@.len() >= 1,
        forall|t: int| 0 <= t < qtokens@.len() ==> (#[trigger] qtokens@[t])@.len() >= 1,
        forall|t: int| 0 <= t < entry.tokens@.len() ==> (#[trigger] entry.tokens@[t])@.len() >= 1,
    ensures
        r == fuzzy_doc_ppm(
            qtokens@.map_values(|t: Vec<char>| t@),
            nq@,
            entry.blob@,
            entry.tokens@.map_values(|t: Vec<char>| t@),
            kk as int,
        ),
{
    let ghost qts = qtokens@.map_values(|t: Vec<char>| t@);
    let ghost bts = entry.tokens@.map_values(|t: Vec<char>| t@);
    let mut total: u128 = 0;
    let mut i: usize = 0;
    proof {
        assert(qts.skip(0) =~= qts);
    }
    while i < qtokens.len()
        invariant
            i <= qtokens@.len(),
            qts == qtokens@.map_values(|t: Vec<char>| t@),
            bts == entry.tokens@.map_values(|t: Vec<char>| t@),
            forall|t: int| 0 <= t < qtokens@.len() ==> (#[trigger] qtokens@[t])@.len() >= 1,
            forall|t: int|
                0 <= t < entry.tokens@.len() ==> (#[trigger] entry.tokens@[t])@.len() >= 1,
            total <= i * 1000000,
            fuzzy_total_ppm(qts, entry.blob@, bts, kk as int) == total + fuzzy_total_ppm(
                qts.skip(i as int),
                entry.blob@,
                bts,
                kk as int,
            ),
        decreases qtokens@.len() - i,
    {
        let ghost pending = qts.skip(i as int);
        proof {
            assert(pending[0] == qts[i as int]);
            assert(pending.drop_first() =~= qts.skip(i + 1));
        }
        let qt = &qtokens[i];
        let ppm: u64 = match find_first(&entry.blob, qt) {
            Some(_) => 1000000,
            None => {
                match best_fuzzy_match(qt, &entry.tokens, kk) {
                    Some((d, ml)) => {
                        proof {
                            lemma_best_fuzzy_bounds(qt@, bts, kk as int);
                            vstd::arithmetic::div_mod::lemma_div_is_ordered(
                                (ml - d) as int * 1000000,
                                ml as int * 1000000,
                                ml as int,
                            );
                            vstd::arithmetic::div_mod::lemma_div_multiples_vanish(
                                1000000,
                                ml as int,
                            );
                            assert(ml as int * 1000000 == 1000000 * ml as int);
                        }
                        (((ml as u128 - d as u128) * 1000000) / (ml as u128)) as u64
                    },
                    None => 0,
                }
            },
        };
        proof {
            assert(ppm == fuzzy_token_ppm(qts[i as int], entry.blob@, bts, kk as int));
            assert(ppm <= 1000000);
            assert((i + 1) * 1000000 == i * 1000000 + 1000000) by (nonlinear_arith);
        }
        total = total + ppm as u128;
        i = i + 1;
    }
    proof {
        assert(qts.skip(qts.len() as int) =~= Seq::<Seq<char>>::empty());
        assert(total <= qts.len() * 1000000);
        assert(total as int / qts.len() as int <= 1000000) by {
            vstd::arithmetic::div_mod::lemma_div_is_ordered(
                total as int,
                qts.len() as int * 1000000,
                qts.len() as int,
            );
            vstd::arithmetic::div_mod::lemma_div_multiples_vanish(1000000, qts.len() as int);
            assert(qts.len() as int * 1000000 == 1000000 * qts.len() as int);
        }
    }
    let mean = (total / (qtokens.len() as u128)) as u64;
    let bonus: u64 = match find_first(&entry.blob, nq) {
        Some(_) => 250000,
        None => 0,
    };
    mean + bonus
}

} // verus!

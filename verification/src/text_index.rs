//! The lexical index: per-field inverted postings with positional
//! occurrences, document frequencies, per-field length tables for BM25FS+
//! normalization, and a Bloom filter over the indexed terms.
//!
//! The index maintains, as a proved invariant: postings of one term are
//! ordered by document entry; `df` counts exactly the distinct documents
//! of each term; each field's length total is exactly the sum of its
//! length table; and every indexed term is reported present by the Bloom
//! filter.  Consecutive occurrences in one (document, field) pair are
//! coalesced into a single posting as they are ingested.  Floating-point
//! BM25 impacts are computed by the caller from the exact match data
//! `text_matches` hands out.

use crate::bloom::BloomFilter;
use crate::kind::FieldWeight;
use crate::tokenize::tokens_of;
use crate::tokenize::tokens_view;
use crate::tokenize::TextProcessor;
use crate::tokenize::TokenView;
use crate::tokenize::TokenizerConfig;
use vstd::pervasive::VecAdditionalExecFns;
use vstd::prelude::*;
use vstd::string::StringSliceAdditionalSpecFns;
use vstd::utf8::encode_utf8;

verus! {

/// BM25 configuration.  `k1` and `delta` are per-mille fixed point:
/// 1200 stands for 1.2 and 500 for 0.5.
#[derive(Debug)]
pub struct BM25Config {
    pub k1: u32,
    pub delta: u32,
    pub field_weights: Vec<(String, FieldWeight)>,
    pub tokenizer_config: TokenizerConfig,
}

impl Default for BM25Config {
    /// k1 = 1.2, delta = 0.5, no field weights, default tokenizer.
    fn default() -> (r: BM25Config)
        ensures
            r.k1 == 1200,
            r.delta == 500,
            r.field_weights@.len() == 0,
            r.tokenizer_config == TokenizerConfig::spec_default(),
    {
        BM25Config {
            k1: 1200,
            delta: 500,
            field_weights: Vec::new(),
            tokenizer_config: TokenizerConfig::default(),
        }
    }
}

/// One posting: a document entry, the field it occurred in, and the token
/// positions of the term in that field.
#[derive(Debug)]
pub struct Posting {
    pub entry: u32,
    pub field: u32,
    pub positions: Vec<usize>,
}

/// The key under which a token is indexed: its stem when stemming is on,
/// its surface form otherwise.
pub open spec fn term_key(tv: TokenView) -> Seq<char> {
    match tv.2 {
        Some(s) => s,
        None => tv.0,
    }
}

/// The number of entry boundaries in a posting list: on a list ordered by
/// entry this is the number of distinct documents.
pub open spec fn boundary_count(s: Seq<Posting>) -> int
    decreases s.len(),
{
    if s.len() == 0 {
        0
    } else if s.len() == 1 {
        1
    } else {
        boundary_count(s.drop_last()) + if s.last().entry == s[s.len() - 2].entry {
            0int
        } else {
            1int
        }
    }
}

/// A boundary count never exceeds the list length.
proof fn lemma_boundary_count_le_len(s: Seq<Posting>)
    ensures
        0 <= boundary_count(s) <= s.len(),
    decreases s.len(),
{
    if s.len() > 1 {
        lemma_boundary_count_le_len(s.drop_last());
    }
}

/// The sum of a length table.
pub open spec fn sum_len(s: Seq<usize>) -> int
    decreases s.len(),
{
    if s.len() == 0 {
        0
    } else {
        sum_len(s.drop_last()) + s.last()
    }
}

/// A sum of lengths is non-negative and at most `len · usize::MAX`.
proof fn lemma_sum_len_bounds(s: Seq<usize>)
    ensures
        0 <= sum_len(s) <= s.len() * usize::MAX,
    decreases s.len(),
{
    if s.len() == 0 {
        assert(s.len() * usize::MAX == 0) by (nonlinear_arith)
            requires
                s.len() == 0,
        ;
    } else {
        lemma_sum_len_bounds(s.drop_last());
        assert(s.len() * usize::MAX == (s.len() - 1) * usize::MAX + usize::MAX)
            by (nonlinear_arith);
    }
}

/// Replacing one element changes the sum by the difference.
proof fn lemma_sum_len_update(s: Seq<usize>, i: int, v: usize)
    requires
        0 <= i < s.len(),
    ensures
        sum_len(s.update(i, v)) == sum_len(s) - s[i] + v,
    decreases s.len(),
{
    if i == s.len() - 1 {
        assert(s.update(i, v).drop_last() =~= s.drop_last());
    } else {
        assert(s.update(i, v).drop_last() =~= s.drop_last().update(i, v));
        lemma_sum_len_update(s.drop_last(), i, v);
    }
}

/// Extending a table with zeroes leaves its sum unchanged.
proof fn lemma_sum_len_extend_zeros(s: Seq<usize>, t: Seq<usize>)
    requires
        t.len() >= s.len(),
        t.subrange(0, s.len() as int) == s,
        forall|m: int| s.len() <= m < t.len() ==> t[m] == 0,
    ensures
        sum_len(t) == sum_len(s),
    decreases t.len() - s.len(),
{
    if t.len() == s.len() {
        assert(t =~= s);
    } else {
        assert(t.drop_last().subrange(0, s.len() as int) =~= s);
        lemma_sum_len_extend_zeros(s, t.drop_last());
    }
}

/// An element never exceeds the sum of its table.
proof fn lemma_sum_len_ge_elem(s: Seq<usize>, i: int)
    requires
        0 <= i < s.len(),
    ensures
        sum_len(s) >= s[i],
    decreases s.len(),
{
    if i == s.len() - 1 {
        lemma_sum_len_bounds(s.drop_last());
    } else {
        lemma_sum_len_ge_elem(s.drop_last(), i);
    }
}

/// The match data of one query term: the term itself, its document
/// frequency, and for each posting the document entry, the field, and the
/// term frequency in that field.
#[derive(Debug)]
pub struct TermMatch {
    pub term: String,
    pub df: u64,
    pub postings: Vec<(u32, u32, usize)>,
}

/// Some index term carries `key` and lists `doc` as its latest posting.
pub open spec fn key_indexed_latest(idx: &TextIndex, key: Seq<char>, doc: u32) -> bool {
    exists|t: int|
        0 <= t < idx.terms@.len() && (#[trigger] idx.terms@[t])@ == key && idx.postings@[t]@.len()
            > 0 && idx.postings@[t]@.last().entry == doc
}

/// Field `fname` records `n` tokens for document `doc`.
pub open spec fn field_len_recorded(idx: &TextIndex, fname: Seq<char>, doc: u32, n: int) -> bool {
    exists|f: int|
        0 <= f < idx.fields@.len() && (#[trigger] idx.fields@[f])@ == fname
            && idx.field_len@[f]@.len() > doc && idx.field_len@[f]@[doc as int] == n
}

/// `m` reports one term of the index exactly: its term string, document
/// frequency, and per-posting (entry, field, term frequency) triples.
pub open spec fn match_reflects(idx: &TextIndex, m: TermMatch) -> bool {
    exists|t: int|
        0 <= t < idx.terms@.len() && (#[trigger] idx.terms@[t])@ == m.term@ && m.df == idx.df@[t]
            && m.postings@.len() == idx.postings@[t]@.len() && (forall|k: int|
            0 <= k < idx.postings@[t]@.len() ==> #[trigger] m.postings@[k] == (
                idx.postings@[t]@[k].entry,
                idx.postings@[t]@[k].field,
                idx.postings@[t]@[k].positions@.len() as usize,
            ))
}

/// The match's term carries the key of some token of the query.
pub open spec fn match_from_query(m: TermMatch, toks: Seq<TokenView>) -> bool {
    exists|i: int| 0 <= i < toks.len() && m.term@ == term_key(#[trigger] toks[i])
}

/// Strictly increasing from index `from` on.
pub open spec fn inc_from(s: Seq<usize>, from: int) -> bool {
    forall|i: int, j: int| from <= i < j < s.len() ==> #[trigger] s[i] < #[trigger] s[j]
}

/// What one ingest call leaves of a position list: ascending past the
/// baseline, the newest position drawn from an already processed token.
spec fn appended_tail_ok(npos: Seq<usize>, base_len: int, toks: Seq<TokenView>, upto: int) -> bool {
    &&& inc_from(npos, base_len)
    &&& (npos.len() > base_len ==> exists|j: int|
        0 <= j < upto && npos.last() == (#[trigger] toks[j]).1)
}

/// How ingest may change one term's posting list: the old postings keep
/// their entry and field, only the last one may gain positions, anything
/// appended or grown belongs to document `doc`.
pub open spec fn postings_appended(op: Seq<Posting>, np: Seq<Posting>, doc: u32) -> bool {
    &&& np.len() >= op.len()
    &&& forall|k: int|
        0 <= k < op.len() ==> (#[trigger] np[k]).entry == op[k].entry && np[k].field
            == op[k].field && op[k].positions@.is_prefix_of(np[k].positions@)
            && (np[k].positions@ != op[k].positions@ ==> np[k].entry == doc) && (k < op.len() - 1
            ==> np[k] == op[k])
    &&& forall|k: int| op.len() <= k < np.len() ==> (#[trigger] np[k]).entry == doc
}

/// `postings_appended` chains across two ingest steps of one document.
pub proof fn lemma_postings_appended_trans(a: Seq<Posting>, b: Seq<Posting>, c: Seq<Posting>, doc: u32)
    requires
        postings_appended(a, b, doc),
        postings_appended(b, c, doc),
    ensures
        postings_appended(a, c, doc),
{
    assert forall|k: int|
        0 <= k < a.len() implies (#[trigger] c[k]).entry == a[k].entry && c[k].field
        == a[k].field && a[k].positions@.is_prefix_of(c[k].positions@) && (c[k].positions@
        != a[k].positions@ ==> c[k].entry == doc) && (k < a.len() - 1 ==> c[k] == a[k]) by {
        assert(b[k].entry == a[k].entry && b[k].field == a[k].field);
        assert(c[k].entry == b[k].entry && c[k].field == b[k].field);
        let ap = a[k].positions@;
        let bp = b[k].positions@;
        let cp = c[k].positions@;
        assert(ap.is_prefix_of(bp) && bp.is_prefix_of(cp));
        assert(ap =~= cp.subrange(0, ap.len() as int)) by {
            assert(ap =~= bp.subrange(0, ap.len() as int));
            assert(bp =~= cp.subrange(0, bp.len() as int));
        }
    }
    assert forall|k: int| a.len() <= k < c.len() implies (#[trigger] c[k]).entry == doc by {
        if k < b.len() {
            assert(b[k].entry == doc);
            assert(c[k].entry == b[k].entry);
        }
    }
}

/// All tokens of a text are indexed with `doc` as their latest posting.
pub open spec fn value_tokens_indexed(
    idx: &TextIndex,
    text: Seq<char>,
    cfg: TokenizerConfig,
    stops: Seq<Seq<char>>,
    doc: u32,
) -> bool {
    forall|i: int|
        0 <= i < tokens_of(text, cfg, stops).len() ==> key_indexed_latest(
            idx,
            term_key(#[trigger] tokens_of(text, cfg, stops)[i]),
            doc,
        )
}

/// A latest-posting fact survives further ingest of the same document.
pub proof fn lemma_key_latest_preserved(pre: &TextIndex, post: &TextIndex, key: Seq<char>, doc: u32)
    requires
        key_indexed_latest(pre, key, doc),
        post.terms@.len() >= pre.terms@.len(),
        forall|t: int|
            0 <= t < pre.terms@.len() ==> #[trigger] post.terms@[t] == pre.terms@[t],
        forall|t: int|
            0 <= t < pre.terms@.len() ==> postings_appended(
                pre.postings@[t]@,
                #[trigger] post.postings@[t]@,
                doc,
            ),
    ensures
        key_indexed_latest(post, key, doc),
{
    let t = choose|t: int|
        0 <= t < pre.terms@.len() && (#[trigger] pre.terms@[t])@ == key && pre.postings@[t]@.len()
            > 0 && pre.postings@[t]@.last().entry == doc;
    assert(post.terms@[t]@ == key);
    let op = pre.postings@[t]@;
    let np = post.postings@[t]@;
    assert(postings_appended(op, np, doc));
    if np.len() > op.len() {
        assert(np.last().entry == doc);
    } else {
        assert(np.len() == op.len());
        assert(np[op.len() - 1].entry == op[op.len() - 1].entry);
        assert(np.last().entry == doc);
    }
}

/// All latest-posting facts of a text survive further ingest of the same
/// document.
pub proof fn lemma_value_tokens_preserved(
    pre: &TextIndex,
    post: &TextIndex,
    text: Seq<char>,
    cfg: TokenizerConfig,
    stops: Seq<Seq<char>>,
    doc: u32,
)
    requires
        value_tokens_indexed(pre, text, cfg, stops, doc),
        post.terms@.len() >= pre.terms@.len(),
        forall|t: int|
            0 <= t < pre.terms@.len() ==> #[trigger] post.terms@[t] == pre.terms@[t],
        forall|t: int|
            0 <= t < pre.terms@.len() ==> postings_appended(
                pre.postings@[t]@,
                #[trigger] post.postings@[t]@,
                doc,
            ),
    ensures
        value_tokens_indexed(post, text, cfg, stops, doc),
{
    assert forall|i: int| 0 <= i < tokens_of(text, cfg, stops).len() implies key_indexed_latest(
        post,
        term_key(#[trigger] tokens_of(text, cfg, stops)[i]),
        doc,
    ) by {
        lemma_key_latest_preserved(pre, post, term_key(tokens_of(text, cfg, stops)[i]), doc);
    }
}

/// Every index term carrying `key` appears among the collected matches.
pub open spec fn key_reported(idx: &TextIndex, r: Seq<TermMatch>, key: Seq<char>) -> bool {
    forall|t: int|
        0 <= t < idx.terms@.len() && (#[trigger] idx.terms@[t])@ == key ==> exists|m: int|
            0 <= m < r.len() && (#[trigger] r[m]).term@ == idx.terms@[t]@
}

/// The lexical index.
#[derive(Debug)]
pub struct TextIndex {
    pub config: BM25Config,
    pub processor: TextProcessor,
    pub bloom_filter: BloomFilter,
    pub terms: Vec<String>,
    pub term_stats: Vec<u64>,
    pub postings: Vec<Vec<Posting>>,
    pub df: Vec<u64>,
    pub fields: Vec<String>,
    pub field_len: Vec<Vec<usize>>,
    pub field_len_total: Vec<u128>,
    pub total_docs: u32,
}

impl TextIndex {
    /// The index invariant: aligned tables, unique term and field names,
    /// entry-ordered postings, exact document frequencies, exact length
    /// totals, and Bloom coverage of every term.
    pub open spec fn wf(&self) -> bool {
        &&& self.bloom_filter.wf()
        &&& self.postings@.len() == self.terms@.len()
        &&& self.df@.len() == self.terms@.len()
        &&& self.term_stats@.len() == self.terms@.len()
        &&& forall|i: int, j: int|
            0 <= i < j < self.terms@.len() ==> (#[trigger] self.terms@[i])@ != (
            #[trigger] self.terms@[j])@
        &&& forall|t: int|
            0 <= t < self.terms@.len() ==> self.bloom_filter.spec_contains_bytes(
                encode_utf8((#[trigger] self.terms@[t])@),
            )
        &&& forall|t: int, k1: int, k2: int|
            0 <= t < self.postings@.len() && 0 <= k1 <= k2 < self.postings@[t]@.len()
                ==> (#[trigger] self.postings@[t]@[k1]).entry <= (
            #[trigger] self.postings@[t]@[k2]).entry
        &&& forall|t: int|
            0 <= t < self.postings@.len() ==> #[trigger] self.df@[t] == boundary_count(
                self.postings@[t]@,
            )
        &&& forall|t: int, k: int|
            0 <= t < self.postings@.len() && 0 <= k < self.postings@[t]@.len()
                ==> (#[trigger] self.postings@[t]@[k]).entry < self.total_docs
        &&& self.field_len@.len() == self.fields@.len()
        &&& self.field_len_total@.len() == self.fields@.len()
        &&& forall|i: int, j: int|
            0 <= i < j < self.fields@.len() ==> (#[trigger] self.fields@[i])@ != (
            #[trigger] self.fields@[j])@
        &&& forall|f: int|
            0 <= f < self.fields@.len() ==> #[trigger] self.field_len_total@[f] == sum_len(
                self.field_len@[f]@,
            )
    }

    /// An empty index with the default configuration.
    pub fn new() -> (r: TextIndex)
        ensures
            r.wf(),
            r.terms@.len() == 0,
            r.fields@.len() == 0,
            r.total_docs == 0,
            r.config.tokenizer_config == TokenizerConfig::spec_default(),
    {
        TextIndex::with_config(BM25Config::default())
    }

    /// An empty index with the given configuration; the text processor
    /// follows the configuration's tokenizer settings.
    pub fn with_config(config: BM25Config) -> (r: TextIndex)
        ensures
            r.wf(),
            r.terms@.len() == 0,
            r.fields@.len() == 0,
            r.total_docs == 0,
            r.config == config,
            r.processor.config == config.tokenizer_config,
    {
        let processor = TextProcessor::with_config(config.tokenizer_config);
        TextIndex {
            config,
            processor,
            bloom_filter: BloomFilter::new(),
            terms: Vec::new(),
            term_stats: Vec::new(),
            postings: Vec::new(),
            df: Vec::new(),
            fields: Vec::new(),
            field_len: Vec::new(),
            field_len_total: Vec::new(),
            total_docs: 0,
        }
    }

    /// Look a term up by its characters.
    fn find_term(&self, term: &String) -> (r: Option<usize>)
        ensures
            match r {
                Some(t) => t < self.terms@.len() && self.terms@[t as int]@ == term@,
                None => forall|t: int|
                    0 <= t < self.terms@.len() ==> (#[trigger] self.terms@[t])@ != term@,
            },
    {
        let mut t: usize = 0;
        while t < self.terms.len()
            invariant
                t <= self.terms@.len(),
                forall|m: int| 0 <= m < t ==> (#[trigger] self.terms@[m])@ != term@,
            decreases self.terms@.len() - t,
        {
            if self.terms[t].eq(term) {
                return Some(t);
            }
            t = t + 1;
        }
        None
    }

    /// Look a field up by name.
    fn find_field(&self, name: &String) -> (r: Option<usize>)
        ensures
            match r {
                Some(f) => f < self.fields@.len() && self.fields@[f as int]@ == name@,
                None => forall|f: int|
                    0 <= f < self.fields@.len() ==> (#[trigger] self.fields@[f])@ != name@,
            },
    {
        let mut f: usize = 0;
        while f < self.fields.len()
            invariant
                f <= self.fields@.len(),
                forall|m: int| 0 <= m < f ==> (#[trigger] self.fields@[m])@ != name@,
            decreases self.fields@.len() - f,
        {
            if self.fields[f].eq(name) {
                return Some(f);
            }
            f = f + 1;
        }
        None
    }

    /// Ingest one text value of one field of a document.  Documents must
    /// arrive in non-decreasing entry order, as the engine assigns them.
    pub fn add_document(&mut self, doc_id: u32, field_name: &str, text: &str)
        requires
            old(self).wf(),
            old(self).total_docs <= doc_id + 1,
            doc_id < u32::MAX,
        ensures
            final(self).wf(),
            final(self).config == old(self).config,
            final(self).processor == old(self).processor,
            final(self).total_docs == if old(self).total_docs >= doc_id + 1 {
                old(self).total_docs as int
            } else {
                doc_id + 1
            },
            final(self).fields@.len() >= old(self).fields@.len(),
            // the field's token count is recorded
            field_len_recorded(
                final(self),
                field_name@,
                doc_id,
                tokens_of(
                    text@,
                    old(self).processor.config,
                    old(self).processor.stop_list(),
                ).len() as int,
            ),
            // every token of the text is indexed under its key, with this
            // document as the latest posting
            value_tokens_indexed(
                final(self),
                text@,
                old(self).processor.config,
                old(self).processor.stop_list(),
                doc_id,
            ),
            // terms are append-only
            final(self).terms@.len() >= old(self).terms@.len(),
            forall|t: int|
                0 <= t < old(self).terms@.len() ==> #[trigger] final(self).terms@[t] == old(
                    self,
                ).terms@[t],
            // every existing posting list only grows, and only with this
            // document
            forall|t: int|
                0 <= t < old(self).terms@.len() ==> postings_appended(
                    old(self).postings@[t]@,
                    #[trigger] final(self).postings@[t]@,
                    doc_id,
                ),
            // brand-new terms hold postings of this document alone
            forall|t: int, k: int|
                old(self).terms@.len() <= t < final(self).terms@.len() && 0 <= k
                    < final(self).postings@[t]@.len() ==> (
                #[trigger] final(self).postings@[t]@[k]).entry == doc_id,
            // within each posting, the positions this call appends ascend
            forall|t: int, k: int|
                0 <= t < old(self).terms@.len() && 0 <= k < final(self).postings@[t]@.len()
                    ==> inc_from(
                    (#[trigger] final(self).postings@[t]@[k]).positions@,
                    if k < old(self).postings@[t]@.len() {
                        old(self).postings@[t]@[k].positions@.len() as int
                    } else {
                        0int
                    },
                ),
            forall|t: int, k: int|
                old(self).terms@.len() <= t < final(self).terms@.len() && 0 <= k
                    < final(self).postings@[t]@.len() ==> inc_from(
                    (#[trigger] final(self).postings@[t]@[k]).positions@,
                    0,
                ),
    {
        let ghost toks = tokens_of(
            text@,
            self.processor.config,
            self.processor.stop_list(),
        );
        let tokens = self.processor.process_text(text);
        proof {
            assert(tokens_view(tokens@) =~= toks);
        }
        // record the field length
        let fname = crate::text_index::str_to_string(field_name);
        let fid = match self.find_field(&fname) {
            Some(f) => f,
            None => {
                self.fields.push(fname);
                self.field_len.push(Vec::new());
                self.field_len_total.push(0);
                proof {
                    assert(self.field_len@.last()@ =~= Seq::<usize>::empty());
                    assert(sum_len(self.field_len@.last()@) == 0);
                }
                self.fields.len() - 1
            },
        };
        proof {
            assert(self.wf());
            assert(self.fields@[fid as int]@ == field_name@);
        }
        let ghost st1 = *self;
        let mut fl: Vec<usize> = Vec::new();
        self.field_len.set_and_swap(fid, &mut fl);
        let ghost fl0 = fl@;
        proof {
            assert(fl0 == st1.field_len@[fid as int]@);
            assert(st1.field_len_total@[fid as int] == sum_len(fl0));
        }
        if fl.len() <= doc_id as usize {
            fl.resize(doc_id as usize + 1, 0);
            proof {
                assert(fl@.subrange(0, fl0.len() as int) == fl0);
                lemma_sum_len_extend_zeros(fl0, fl@);
            }
        }
        let fl_n = fl.len();
        proof {
            assert(sum_len(fl@) == sum_len(fl0));
            lemma_sum_len_ge_elem(fl@, doc_id as int);
            lemma_sum_len_bounds(fl@);
            assert(fl@.len() == fl_n <= usize::MAX);
            assert(fl@.len() * usize::MAX <= (usize::MAX as int) * (usize::MAX as int))
                by (nonlinear_arith)
                requires
                    fl@.len() <= usize::MAX,
            ;
        }
        let ghost before_set = fl@;
        let old_val = fl[doc_id as usize];
        let total = self.field_len_total[fid];
        proof {
            assert(total == sum_len(before_set));
            assert(total >= old_val);
            assert(total <= (usize::MAX as int) * (usize::MAX as int));
            assert((usize::MAX as int) * (usize::MAX as int) + (usize::MAX as int)
                <= u128::MAX) by (nonlinear_arith)
                requires
                    usize::MAX as int <= 0xffffffffffffffff,
            ;
        }
        fl.set(doc_id as usize, tokens.len());
        proof {
            lemma_sum_len_update(before_set, doc_id as int, tokens.len());
            assert(sum_len(fl@) == sum_len(before_set) - old_val + tokens@.len());
        }
        let new_total = total - (old_val as u128) + (tokens.len() as u128);
        self.field_len_total.set(fid, new_total);
        self.field_len.set_and_swap(fid, &mut fl);
        proof {
            assert(new_total == sum_len(self.field_len@[fid as int]@));
            assert forall|f: int|
                0 <= f < self.fields@.len() implies #[trigger] self.field_len_total@[f]
                == sum_len(self.field_len@[f]@) by {
                if f != fid {
                    assert(self.field_len@[f] == st1.field_len@[f]);
                }
            }
            assert(self.field_len@[fid as int]@.len() > doc_id);
            assert(self.field_len@[fid as int]@[doc_id as int] == tokens@.len());
            assert(self.wf());
        }
        // total document count
        if doc_id >= self.total_docs {
            self.total_docs = doc_id + 1;
        }
        proof {
            assert(self.total_docs == doc_id + 1);
            assert(self.wf());
        }
        let fid32 = fid as u32;
        // index each token under its key
        proof {
            crate::tokenize::lemma_tokens_positions_increasing(
                text@,
                self.processor.config,
                self.processor.stop_list(),
            );
        }
        let ghost pre_loop = *self;
        let mut i: usize = 0;
        while i < tokens.len()
            invariant
                self.wf(),
                i <= tokens@.len(),
                tokens_view(tokens@) == toks,
                self.config == pre_loop.config,
                self.processor == pre_loop.processor,
                self.total_docs == pre_loop.total_docs,
                self.total_docs == doc_id + 1,
                self.fields@ == pre_loop.fields@,
                self.field_len@ == pre_loop.field_len@,
                self.field_len_total@ == pre_loop.field_len_total@,
                self.terms@.len() >= pre_loop.terms@.len(),
                forall|t: int|
                    0 <= t < pre_loop.terms@.len() ==> #[trigger] self.terms@[t]
                        == pre_loop.terms@[t],
                forall|t: int|
                    0 <= t < pre_loop.terms@.len() ==> postings_appended(
                        pre_loop.postings@[t]@,
                        #[trigger] self.postings@[t]@,
                        doc_id,
                    ),
                forall|t: int, k: int|
                    pre_loop.terms@.len() <= t < self.terms@.len() && 0 <= k
                        < self.postings@[t]@.len() ==> (
                    #[trigger] self.postings@[t]@[k]).entry == doc_id,
                forall|a: int, c: int|
                    0 <= a < c < toks.len() ==> (#[trigger] toks[a]).1 < (#[trigger] toks[c]).1,
                forall|t: int, k: int|
                    0 <= t < pre_loop.terms@.len() && 0 <= k < self.postings@[t]@.len()
                        ==> appended_tail_ok(
                        (#[trigger] self.postings@[t]@[k]).positions@,
                        if k < pre_loop.postings@[t]@.len() {
                            pre_loop.postings@[t]@[k].positions@.len() as int
                        } else {
                            0int
                        },
                        toks,
                        i as int,
                    ),
                forall|t: int, k: int|
                    pre_loop.terms@.len() <= t < self.terms@.len() && 0 <= k
                        < self.postings@[t]@.len() ==> appended_tail_ok(
                        (#[trigger] self.postings@[t]@[k]).positions@,
                        0int,
                        toks,
                        i as int,
                    ),
                forall|j: int|
                    0 <= j < i ==> key_indexed_latest(self, term_key(#[trigger] toks[j]), doc_id),
            decreases tokens@.len() - i,
        {
            let ghost top = *self;
            let token = &tokens[i];
            let term: &String = match &token.stemmed {
                Some(s) => s,
                None => &token.text,
            };
            proof {
                assert(tokens@[i as int].view_of() == toks[i as int]);
                assert(term@ == term_key(toks[i as int]));
            }
            let tid = match self.find_term(term) {
                Some(t) => t,
                None => {
                    self.terms.push(term.clone());
                    self.term_stats.push(0);
                    self.postings.push(Vec::new());
                    self.df.push(0);
                    let tstr = term.as_str();
                    self.bloom_filter.insert(tstr);
                    proof {
                        let n = self.terms@.len() - 1;
                        assert(self.terms@[n]@ == term@);
                        assert(self.postings@[n]@ =~= Seq::<Posting>::empty());
                        assert(boundary_count(self.postings@[n]@) == 0);
                        // the new term is in the Bloom filter, the old ones stay
                        assert(encode_utf8(self.terms@[n]@) == tstr.spec_bytes());
                        assert forall|t: int|
                            0 <= t < self.terms@.len() implies self.bloom_filter
                            .spec_contains_bytes(
                            encode_utf8((#[trigger] self.terms@[t])@),
                        ) by {
                            if t < n {
                                assert(self.terms@[t] == top.terms@[t]);
                                crate::bloom::lemma_probe_set_preserved(
                                    &top.bloom_filter,
                                    &self.bloom_filter,
                                    encode_utf8(self.terms@[t]@),
                                );
                            }
                        }
                        assert(self.wf());
                    }
                    self.terms.len() - 1
                },
            };
            proof {
                assert(self.wf());
                assert(self.terms@[tid as int]@ == term@);
            }
            let ghost mid = *self;
            let mut plist: Vec<Posting> = Vec::new();
            self.postings.set_and_swap(tid, &mut plist);
            let ghost plist0 = plist@;
            proof {
                assert(plist0 == mid.postings@[tid as int]@);
                assert(mid.df@[tid as int] == boundary_count(plist0));
                assert forall|k: int| 0 <= k < plist0.len() implies (#[trigger] plist0[k]).entry
                    <= doc_id by {
                    assert(plist0[k].entry < mid.total_docs);
                }
            }
            let plen = plist.len();
            let coalesce = plen > 0 && plist[plen - 1].entry == doc_id && plist[plen - 1].field
                == fid32;
            if coalesce {
                match plist.pop() {
                    Some(mut p) => {
                        p.positions.push(token.position);
                        let ghost pn = p;
                        plist.push(p);
                        proof {
                            assert(plist@ =~= plist0.update(plist0.len() - 1, pn));
                            lemma_boundary_update_last(plist0, pn);
                            assert(boundary_count(plist@) == boundary_count(plist0));
                            assert forall|k: int| 0 <= k < plist@.len() implies (
                            #[trigger] plist@[k]).entry == plist0[k].entry by {}
                        }
                    },
                    None => {
                        // unreachable: the list was non-empty
                        proof {
                            assert(false);
                        }
                    },
                }
            } else {
                let bump = plen == 0 || plist[plen - 1].entry != doc_id;
                let mut pv: Vec<usize> = Vec::new();
                pv.push(token.position);
                plist.push(Posting { entry: doc_id, field: fid32, positions: pv });
                proof {
                    assert(plist@.drop_last() =~= plist0);
                    assert(plist@.last().entry == doc_id);
                    if plen == 0 {
                        assert(boundary_count(plist@) == 1);
                    } else {
                        assert(plist@[plist@.len() - 2] == plist0[plist0.len() - 1]);
                        assert(boundary_count(plist@) == boundary_count(plist0)
                            + if plist0.last().entry == doc_id {
                            0int
                        } else {
                            1int
                        });
                    }
                }
                if bump {
                    let pl_n = plist.len();
                    proof {
                        lemma_boundary_count_le_len(plist0);
                        assert(plist@.len() == pl_n <= usize::MAX);
                        assert(plist0.len() < plist@.len());
                    }
                    let newdf = self.df[tid] + 1;
                    self.df.set(tid, newdf);
                }
            }
            self.postings.set_and_swap(tid, &mut plist);
            let ts = self.term_stats[tid];
            self.term_stats.set(
                tid,
                if ts < u64::MAX {
                    ts + 1
                } else {
                    ts
                },
            );
            proof {
                // only term `tid` changed; its postings stay ordered and its
                // boundary count matches its document frequency
                let pl = self.postings@[tid as int]@;
                assert(pl.len() > 0);
                assert(pl.last().entry == doc_id);
                assert forall|k1: int, k2: int| 0 <= k1 <= k2 < pl.len() implies (
                #[trigger] pl[k1]).entry <= (#[trigger] pl[k2]).entry by {
                    if coalesce {
                        assert(pl[k1].entry == plist0[k1].entry);
                        assert(pl[k2].entry == plist0[k2].entry);
                    } else {
                        if k2 == pl.len() - 1 {
                            if k1 < k2 {
                                assert(pl[k1].entry == plist0[k1].entry);
                                assert(pl[k1].entry <= doc_id);
                            }
                        } else {
                            assert(pl[k1].entry == plist0[k1].entry);
                            assert(pl[k2].entry == plist0[k2].entry);
                        }
                    }
                }
                assert(self.df@[tid as int] == boundary_count(pl));
                assert forall|k: int| 0 <= k < pl.len() implies (#[trigger] pl[k]).entry
                    < self.total_docs by {
                    if coalesce || k < pl.len() - 1 {
                        assert(pl[k].entry == plist0[k].entry);
                    }
                }
                assert(self.wf());
                assert forall|j: int| 0 <= j < i + 1 implies key_indexed_latest(
                    self,
                    term_key(#[trigger] toks[j]),
                    doc_id,
                ) by {
                    if j < i {
                        assert(key_indexed_latest(&top, term_key(toks[j]), doc_id));
                        let t0 = choose|t: int|
                            0 <= t < top.terms@.len() && (#[trigger] top.terms@[t])@ == term_key(
                                toks[j],
                            ) && top.postings@[t]@.len() > 0 && top.postings@[t]@.last().entry
                                == doc_id;
                        assert(self.terms@[t0]@ == term_key(toks[j]));
                        if t0 == tid {
                            assert(self.postings@[t0]@.last().entry == doc_id);
                        } else {
                            assert(self.postings@[t0]@ == top.postings@[t0]@);
                        }
                    } else {
                        assert(self.terms@[tid as int]@ == term_key(toks[j]));
                        assert(self.postings@[tid as int]@.last().entry == doc_id);
                    }
                }
            }
            i = i + 1;
        }
        proof {
            assert(self.fields@[fid as int]@ == field_name@);
            assert(self.field_len@[fid as int]@.len() > doc_id);
            assert(self.field_len@[fid as int]@[doc_id as int] == toks.len());
            assert(field_len_recorded(self, field_name@, doc_id, toks.len() as int));
            assert(toks.len() == tokens@.len());
        }
    }

    /// The distinct query terms present in the index, with their document
    /// frequencies and per-(entry, field) term frequencies.  A term of the
    /// index is returned exactly when the query's tokens carry its key; the
    /// Bloom filter only short-cuts terms that cannot be present.
    pub fn text_matches(&self, query: &str) -> (r: Vec<TermMatch>)
        requires
            self.wf(),
        ensures
            // soundness: every returned match reflects the index exactly
            forall|m: int| 0 <= m < r@.len() ==> match_reflects(self, #[trigger] r@[m]),
            // and carries a key of the query's own tokens: an empty or
            // fully filtered query yields no matches, and only the set of
            // distinct keys matters
            forall|m: int|
                0 <= m < r@.len() ==> match_from_query(
                    #[trigger] r@[m],
                    tokens_of(query@, self.processor.config, self.processor.stop_list()),
                ),
            // no term is returned twice
            forall|m1: int, m2: int|
                0 <= m1 < m2 < r@.len() ==> (#[trigger] r@[m1]).term@ != (
                #[trigger] r@[m2]).term@,
            // completeness: every indexed key among the query's tokens is
            // returned
            forall|i: int|
                0 <= i < tokens_of(query@, self.processor.config, self.processor.stop_list()).len()
                    ==> key_reported(
                    self,
                    r@,
                    term_key(
                        #[trigger] tokens_of(
                            query@,
                            self.processor.config,
                            self.processor.stop_list(),
                        )[i],
                    ),
                ),
    {
        let ghost toks = tokens_of(query@, self.processor.config, self.processor.stop_list());
        let tokens = self.processor.process_text(query);
        proof {
            assert(tokens_view(tokens@) =~= toks);
        }
        let mut r: Vec<TermMatch> = Vec::new();
        let mut i: usize = 0;
        while i < tokens.len()
            invariant
                self.wf(),
                i <= tokens@.len(),
                tokens_view(tokens@) == toks,
                forall|m: int| 0 <= m < r@.len() ==> match_reflects(self, #[trigger] r@[m]),
                forall|m: int| 0 <= m < r@.len() ==> match_from_query(#[trigger] r@[m], toks),
                forall|m1: int, m2: int|
                    0 <= m1 < m2 < r@.len() ==> (#[trigger] r@[m1]).term@ != (
                    #[trigger] r@[m2]).term@,
                forall|j: int|
                    0 <= j < i ==> key_reported(self, r@, term_key(#[trigger] toks[j])),
            decreases tokens@.len() - i,
        {
            let ghost rtop = r@;
            let token = &tokens[i];
            let term: &String = match &token.stemmed {
                Some(s) => s,
                None => &token.text,
            };
            proof {
                assert(tokens@[i as int].view_of() == toks[i as int]);
                assert(term@ == term_key(toks[i as int]));
            }
            // skip terms already collected
            let mut seen = false;
            let mut m: usize = 0;
            while m < r.len() && !seen
                invariant
                    m <= r@.len(),
                    seen ==> exists|m2: int|
                        0 <= m2 < r@.len() && (#[trigger] r@[m2]).term@ == term@,
                    !seen ==> forall|m2: int|
                        0 <= m2 < m ==> (#[trigger] r@[m2]).term@ != term@,
                decreases r@.len() - m + if seen {
                    0int
                } else {
                    1int
                },
            {
                if r[m].term.eq(term) {
                    seen = true;
                } else {
                    m = m + 1;
                }
            }
            if !seen {
                // Bloom filter fast path: a negative answer proves absence
                let tstr = term.as_str();
                if self.bloom_filter.contains(tstr) {
                    match self.find_term(term) {
                        Some(t) => {
                            let mut ps: Vec<(u32, u32, usize)> = Vec::new();
                            let plist = &self.postings[t];
                            let mut k: usize = 0;
                            while k < plist.len()
                                invariant
                                    k <= plist@.len(),
                                    plist@ == self.postings@[t as int]@,
                                    t < self.postings@.len(),
                                    ps@.len() == k,
                                    forall|x: int|
                                        0 <= x < k ==> #[trigger] ps@[x] == (
                                            self.postings@[t as int]@[x].entry,
                                            self.postings@[t as int]@[x].field,
                                            self.postings@[t as int]@[x].positions@.len() as usize,
                                        ),
                                decreases plist@.len() - k,
                            {
                                let p = &plist[k];
                                ps.push((p.entry, p.field, p.positions.len()));
                                k = k + 1;
                            }
                            let ghost old_r = r@;
                            proof {
                                assert(m == old_r.len());
                                assert(forall|m2: int|
                                    0 <= m2 < old_r.len() ==> (#[trigger] old_r[m2]).term@
                                        != term@);
                            }
                            r.push(TermMatch { term: term.clone(), df: self.df[t], postings: ps });
                            proof {
                                let mm = r@.len() - 1;
                                assert(r@[mm].term@ == term@);
                                assert((t as int) < self.terms@.len() && self.terms@[t as int]@
                                    == r@[mm].term@ && r@[mm].df == self.df@[t as int]
                                    && r@[mm].postings@.len() == self.postings@[t as int]@.len());
                                assert(forall|k: int|
                                    0 <= k < self.postings@[t as int]@.len()
                                        ==> #[trigger] r@[mm].postings@[k] == (
                                        self.postings@[t as int]@[k].entry,
                                        self.postings@[t as int]@[k].field,
                                        self.postings@[t as int]@[k].positions@.len() as usize,
                                    ));
                                assert(match_reflects(self, r@[mm]));
                                assert(r@[mm].term@ == term_key(toks[i as int]));
                                assert(match_from_query(r@[mm], toks));
                                assert(forall|m2: int| 0 <= m2 < mm ==> r@[m2] == old_r[m2]);
                                assert(forall|m2: int|
                                    0 <= m2 < mm ==> match_reflects(self, #[trigger] r@[m2]));
                                // uniqueness: the new term was not collected before
                                assert(forall|m2: int|
                                    0 <= m2 < mm ==> (#[trigger] r@[m2]).term@ != term@);
                            }
                        },
                        None => {
                        },
                    }
                } else {
                    // by the index invariant an indexed term is always
                    // reported present, so nothing is missed here
                    proof {
                        assert forall|t: int|
                            0 <= t < self.terms@.len() implies (#[trigger] self.terms@[t])@
                            != term@ by {
                            if self.terms@[t]@ == term@ {
                                assert(self.bloom_filter.spec_contains_bytes(
                                    encode_utf8(self.terms@[t]@),
                                ));
                                assert(tstr.spec_bytes() == encode_utf8(term@));
                            }
                        }
                    }
                }
            }
            proof {
                assert forall|j: int| 0 <= j < i + 1 implies key_reported(
                    self,
                    r@,
                    term_key(#[trigger] toks[j]),
                ) by {
                    if j == i {
                        assert forall|t: int|
                            0 <= t < self.terms@.len() && (#[trigger] self.terms@[t])@
                                == term_key(toks[j]) implies exists|m2: int|
                            0 <= m2 < r@.len() && (#[trigger] r@[m2]).term@
                                == self.terms@[t]@ by {
                            assert(self.terms@[t]@ == term@);
                        }
                    } else {
                        assert(key_reported(self, rtop, term_key(toks[j])));
                        assert forall|t: int|
                            0 <= t < self.terms@.len() && (#[trigger] self.terms@[t])@
                                == term_key(toks[j]) implies exists|m2: int|
                            0 <= m2 < r@.len() && (#[trigger] r@[m2]).term@
                                == self.terms@[t]@ by {
                            let m0 = choose|m2: int|
                                0 <= m2 < rtop.len() && (#[trigger] rtop[m2]).term@
                                    == self.terms@[t]@;
                            assert(r@[m0].term@ == self.terms@[t]@);
                        }
                    }
                }
            }
            i = i + 1;
        }
        r
    }
}

/// An owned copy of a borrowed string.
pub fn str_to_string(s: &str) -> (r: String)
    ensures
        r@ == s@,
{
    let mut r = String::new();
    let chars = crate::tokenize::str_chars(s);
    let mut i: usize = 0;
    while i < chars.len()
        invariant
            i <= chars@.len(),
            chars@ == s@,
            r@ =~= s@.take(i as int),
        decreases chars@.len() - i,
    {
        crate::tokenize::push_char(&mut r, chars[i]);
        proof {
            assert(r@ =~= s@.take(i + 1));
        }
        i = i + 1;
    }
    proof {
        assert(s@.take(s@.len() as int) =~= s@);
    }
    r
}

/// Replacing the last posting with one of the same entry keeps the
/// boundary count.
proof fn lemma_boundary_update_last(s: Seq<Posting>, p: Posting)
    requires
        s.len() > 0,
        p.entry == s.last().entry,
    ensures
        boundary_count(s.update(s.len() - 1, p)) == boundary_count(s),
{
    let s2 = s.update(s.len() - 1, p);
    assert(s2.drop_last() =~= s.drop_last());
    assert(s2.last() == p);
    if s.len() > 1 {
        assert(s2[s2.len() - 2] == s[s.len() - 2]);
    }
}

/// Every field's recorded length total equals the sum of its length
/// table, and lengths are never negative: the running average the scorer
/// divides out is the exact mean.
pub proof fn lemma_field_length_stats(idx: &TextIndex)
    requires
        idx.wf(),
    ensures
        forall|f: int|
            0 <= f < idx.fields@.len() ==> #[trigger] idx.field_len_total@[f] == sum_len(
                idx.field_len@[f]@,
            ) && sum_len(idx.field_len@[f]@) >= 0,
{
    assert forall|f: int| 0 <= f < idx.fields@.len() implies #[trigger] idx.field_len_total@[f]
        == sum_len(idx.field_len@[f]@) && sum_len(idx.field_len@[f]@) >= 0 by {
        lemma_sum_len_bounds(idx.field_len@[f]@);
    }
}

/// Every term held by the postings is reported present by the Bloom
/// filter: the filter never hides an indexed term.
pub proof fn lemma_indexed_terms_in_bloom(idx: &TextIndex)
    requires
        idx.wf(),
    ensures
        forall|t: int|
            0 <= t < idx.terms@.len() ==> idx.bloom_filter.spec_contains_bytes(
                encode_utf8((#[trigger] idx.terms@[t])@),
            ),
{
}

} // verus!

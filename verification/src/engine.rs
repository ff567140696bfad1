//! The hybrid search engine: schema, documents, and the orchestration of
//! the lexical index, the vector store and the scan store.
//!
//! Ingest is verified end to end over the exact integer state; of the
//! query paths, substring and fuzzy scans are ranked here exactly (in
//! parts-per-million scores), while BM25 and cosine scores are floating
//! point and are computed by the embedding application from the match
//! data and rows this engine hands out.

use crate::errors::IndexError;
use crate::kind::FieldWeight;
use crate::kind::Kind;
use crate::scan::normal_of;
use crate::scan::scored_fuzzy;
use crate::scan::scored_substring;
use crate::scan::ScanStore;
use crate::text_index::lemma_postings_appended_trans;
use crate::text_index::lemma_value_tokens_preserved;
use crate::text_index::postings_appended;
use crate::text_index::str_to_string;
use crate::text_index::value_tokens_indexed;
use crate::text_index::BM25Config;
use crate::text_index::TextIndex;
use crate::tokenize::lower_of;
use crate::tokenize::TokenizerConfig;
use crate::topk::is_top_k;
use crate::vector_index::VectorIndex;
use vstd::pervasive::VecAdditionalExecFns;
use vstd::prelude::*;
use vstd::string::StringExecFns;

verus! {

/// The dense internal document handle.
pub type EntryIndex = u32;

/// An attribute's position inside a document.
pub type AttributeIndex = u32;

/// A value's position inside an attribute.
pub type ValueIndex = u32;

/// A token's word position inside a text.
pub type Position = usize;

/// A token's index in a token stream.
pub type TokenIndex = u32;

/// An opaque document identifier.
#[derive(Debug, Clone, PartialEq, Eq, Hash, PartialOrd, Ord)]
pub struct DocumentId(pub String);

impl DocumentId {
    /// Wrap an identifier string.
    pub fn new(id: &str) -> (r: DocumentId)
        ensures
            r.0@ == id@,
    {
        DocumentId(str_to_string(id))
    }
}

/// A document attribute value: text that is indexed, or a vector given as
/// component bit patterns.
#[derive(Debug)]
pub enum Value {
    Text(String),
    Vector(Vec<u32>),
}

/// Whether a value is text with exactly these characters.
pub open spec fn is_text_value(v: Value, s: Seq<char>) -> bool {
    match v {
        Value::Text(t) => t@ == s,
        Value::Vector(_) => false,
    }
}

/// The characters of a text value (empty for a vector value).
pub open spec fn text_of(v: Value) -> Seq<char> {
    match v {
        Value::Text(t) => t@,
        Value::Vector(_) => Seq::empty(),
    }
}

/// A document under construction or storage: an identifier, named
/// attributes each holding a list of values, and an optional embedding
/// (component bit patterns).
#[derive(Debug)]
pub struct Document {
    pub id: DocumentId,
    pub attributes: Vec<(String, Vec<Value>)>,
    pub vector: Option<Vec<u32>>,
}

impl Document {
    /// A document with no attributes.
    pub fn new(id: &str) -> (r: Document)
        ensures
            r.id.0@ == id@,
            r.attributes@.len() == 0,
            r.vector is None,
    {
        Document { id: DocumentId::new(id), attributes: Vec::new(), vector: None }
    }

    /// Append a text value under `field_name`: an existing attribute of
    /// that name grows by the one value, otherwise a new attribute is
    /// appended holding it; every other attribute is untouched.
    pub fn attribute(self, field_name: &str, value: &str) -> (r: Document)
        ensures
            r.id == self.id,
            r.vector == self.vector,
            exists|f: int|
                #![trigger r.attributes@[f]]
                {
                    &&& 0 <= f < r.attributes@.len()
                    &&& r.attributes@[f].0@ == field_name@
                    &&& r.attributes@[f].1@.len() >= 1
                    &&& is_text_value(r.attributes@[f].1@.last(), value@)
                    &&& if f < self.attributes@.len() {
                        &&& r.attributes@.len() == self.attributes@.len()
                        &&& r.attributes@[f].0 == self.attributes@[f].0
                        &&& r.attributes@[f].1@.drop_last() == self.attributes@[f].1@
                    } else {
                        &&& f == self.attributes@.len()
                        &&& r.attributes@.len() == f + 1
                        &&& r.attributes@[f].1@.len() == 1
                    }
                    &&& forall|g: int|
                        0 <= g < r.attributes@.len() && g != f && g < self.attributes@.len()
                            ==> #[trigger] r.attributes@[g] == self.attributes@[g]
                },
    {
        let mut doc = self;
        let fname_s = str_to_string(field_name);
        let mut f: usize = 0;
        let n = doc.attributes.len();
        let mut found = false;
        while f < n && !found
            invariant
                f <= n,
                n == doc.attributes@.len(),
                doc == self,
                fname_s@ == field_name@,
                found ==> f < n && doc.attributes@[f as int].0@ == field_name@,
            decreases n - f + if found {
                0int
            } else {
                1int
            },
        {
            if doc.attributes[f].0.eq(&fname_s) {
                found = true;
            } else {
                f = f + 1;
            }
        }
        if found && f < doc.attributes.len() {
            let mut entry: (String, Vec<Value>) = (String::new(), Vec::new());
            doc.attributes.set_and_swap(f, &mut entry);
            entry.1.push(Value::Text(str_to_string(value)));
            let ghost grown = entry;
            doc.attributes.set_and_swap(f, &mut entry);
            proof {
                assert(doc.attributes@[f as int] == grown);
                assert(grown.0 == self.attributes@[f as int].0);
                assert(grown.1@.drop_last() =~= self.attributes@[f as int].1@);
                assert(is_text_value(grown.1@.last(), value@));
            }
        } else {
            let mut vals: Vec<Value> = Vec::new();
            vals.push(Value::Text(str_to_string(value)));
            doc.attributes.push((fname_s, vals));
            proof {
                let fz = doc.attributes@.len() - 1;
                assert(doc.attributes@[fz].0@ == field_name@);
                assert(doc.attributes@[fz].1@.len() == 1);
                assert(is_text_value(doc.attributes@[fz].1@.last(), value@));
            }
        }
        doc
    }

    /// Attach an embedding, given as component bit patterns.
    pub fn with_vector(self, vector: Vec<u32>) -> (r: Document)
        ensures
            r.id == self.id,
            r.attributes == self.attributes,
            r.vector == Some(vector),
    {
        let mut doc = self;
        doc.vector = Some(vector);
        doc
    }

    /// The document identifier.
    pub fn get_id(&self) -> (r: &DocumentId)
        ensures
            r == &self.id,
    {
        &self.id
    }

    /// The attribute list.
    pub fn get_attributes(&self) -> (r: &Vec<(String, Vec<Value>)>)
        ensures
            r == &self.attributes,
    {
        &self.attributes
    }

    /// The embedding, when present.
    pub fn get_vector(&self) -> (r: Option<&Vec<u32>>)
        ensures
            match r {
                Some(v) => self.vector == Some(*v),
                None => self.vector is None,
            },
    {
        self.vector.as_ref()
    }
}

/// One ranked result: a document identifier and its integer score (a
/// parts-per-million score for the scan queries, a fused key for RRF).
#[derive(Debug, Clone)]
pub struct SearchResult {
    pub document_id: String,
    pub score: u64,
}

impl SearchResult {
    /// The matched document's identifier.
    pub fn document_id(&self) -> (r: String)
        ensures
            r@ == self.document_id@,
    {
        self.document_id.clone()
    }

    /// The integer score.
    pub fn score(&self) -> (r: u64)
        ensures
            r == self.score,
    {
        self.score
    }
}

/// The first weight recorded under `name`.
pub open spec fn lookup_weight(s: Seq<(String, FieldWeight)>, name: Seq<char>) -> Option<
    FieldWeight,
>
    decreases s.len(),
{
    if s.len() == 0 {
        None
    } else if s[0].0@ == name {
        Some(s[0].1)
    } else {
        lookup_weight(s.drop_first(), name)
    }
}

/// The schema: per-field weights, the tokenizer configuration, and an
/// optional fixed vector dimension.
#[derive(Debug)]
pub struct Schema {
    pub field_weights: Vec<(String, FieldWeight)>,
    pub tokenizer_config: TokenizerConfig,
    pub vector_dimension: Option<usize>,
}

impl Schema {
    /// A builder with no fields.
    pub fn builder() -> (r: SchemaBuilder)
        ensures
            r.field_weights@.len() == 0,
            r.tokenizer_config == TokenizerConfig::spec_default(),
            r.vector_dimension is None,
    {
        SchemaBuilder::new()
    }

    /// The number of configured fields.
    pub fn field_count(&self) -> (r: usize)
        ensures
            r == self.field_weights@.len(),
    {
        self.field_weights.len()
    }

    /// The configured field names, in insertion order.
    pub fn field_names(&self) -> (r: Vec<String>)
        ensures
            r@.len() == self.field_weights@.len(),
            forall|i: int|
                0 <= i < r@.len() ==> (#[trigger] r@[i])@ == self.field_weights@[i].0@,
    {
        let mut r: Vec<String> = Vec::new();
        let mut i: usize = 0;
        while i < self.field_weights.len()
            invariant
                i <= self.field_weights@.len(),
                r@.len() == i,
                forall|m: int|
                    0 <= m < i ==> (#[trigger] r@[m])@ == self.field_weights@[m].0@,
            decreases self.field_weights@.len() - i,
        {
            r.push(self.field_weights[i].0.clone());
            i = i + 1;
        }
        r
    }

    /// The field weight table.
    pub fn get_field_weights(&self) -> (r: &Vec<(String, FieldWeight)>)
        ensures
            r == &self.field_weights,
    {
        &self.field_weights
    }

    /// The tokenizer configuration.
    pub fn get_tokenizer_config(&self) -> (r: &TokenizerConfig)
        ensures
            r == &self.tokenizer_config,
    {
        &self.tokenizer_config
    }

    /// The fixed vector dimension, when one was set.
    pub fn get_vector_dimension(&self) -> (r: Option<usize>)
        ensures
            r == self.vector_dimension,
    {
        self.vector_dimension
    }
}

/// Fluent schema construction.
#[derive(Debug)]
pub struct SchemaBuilder {
    pub field_weights: Vec<(String, FieldWeight)>,
    pub tokenizer_config: TokenizerConfig,
    pub vector_dimension: Option<usize>,
}

impl SchemaBuilder {
    /// An empty builder with the default tokenizer configuration.
    pub fn new() -> (r: SchemaBuilder)
        ensures
            r.field_weights@.len() == 0,
            r.tokenizer_config == TokenizerConfig::spec_default(),
            r.vector_dimension is None,
    {
        SchemaBuilder {
            field_weights: Vec::new(),
            tokenizer_config: TokenizerConfig::default(),
            vector_dimension: None,
        }
    }

    /// Add (or replace) a field with its kind's canonical weights.
    pub fn attribute(self, field_name: &str, kind: Kind) -> (r: SchemaBuilder)
        ensures
            r.tokenizer_config == self.tokenizer_config,
            r.vector_dimension == self.vector_dimension,
            lookup_weight(r.field_weights@, field_name@) == Some(
                FieldWeight {
                    weight: kind.spec_weights().0,
                    b: kind.spec_weights().1,
                    kind,
                },
            ),
            forall|other: Seq<char>|
                other != field_name@ ==> #[trigger] lookup_weight(r.field_weights@, other)
                    == lookup_weight(self.field_weights@, other),
            r.field_weights@.len() == if lookup_weight(self.field_weights@, field_name@)
                is Some {
                self.field_weights@.len() as int
            } else {
                self.field_weights@.len() as int + 1
            },
    {
        self.set_weight(field_name, FieldWeight::new(kind))
    }

    /// Add (or replace) a field with a custom weight (per-mille) and an
    /// optional custom b (per-mille).
    pub fn attribute_with_weight(
        self,
        field_name: &str,
        kind: Kind,
        weight: u32,
        b: Option<u32>,
    ) -> (r: SchemaBuilder)
        ensures
            r.tokenizer_config == self.tokenizer_config,
            r.vector_dimension == self.vector_dimension,
            lookup_weight(r.field_weights@, field_name@) == Some(
                FieldWeight {
                    weight,
                    b: if b is Some {
                        b->0
                    } else {
                        kind.spec_weights().1
                    },
                    kind,
                },
            ),
            forall|other: Seq<char>|
                other != field_name@ ==> #[trigger] lookup_weight(r.field_weights@, other)
                    == lookup_weight(self.field_weights@, other),
            r.field_weights@.len() == if lookup_weight(self.field_weights@, field_name@)
                is Some {
                self.field_weights@.len() as int
            } else {
                self.field_weights@.len() as int + 1
            },
    {
        self.set_weight(field_name, FieldWeight::with_custom_weight(kind, weight, b))
    }

    /// Record `fw` under `field_name`, replacing an earlier entry;
    /// every other field keeps its weight.
    fn set_weight(self, field_name: &str, fw: FieldWeight) -> (r: SchemaBuilder)
        ensures
            r.tokenizer_config == self.tokenizer_config,
            r.vector_dimension == self.vector_dimension,
            lookup_weight(r.field_weights@, field_name@) == Some(fw),
            forall|other: Seq<char>|
                other != field_name@ ==> #[trigger] lookup_weight(r.field_weights@, other)
                    == lookup_weight(self.field_weights@, other),
            r.field_weights@.len() == if lookup_weight(self.field_weights@, field_name@)
                is Some {
                self.field_weights@.len() as int
            } else {
                self.field_weights@.len() as int + 1
            },
    {
        let mut b = self;
        let fname_s = str_to_string(field_name);
        let mut f: usize = 0;
        let n = b.field_weights.len();
        while f < n
            invariant
                f <= n,
                n == b.field_weights@.len(),
                fname_s@ == field_name@,
                b.tokenizer_config == self.tokenizer_config,
                b.vector_dimension == self.vector_dimension,
                b.field_weights@ == self.field_weights@,
                forall|m: int| 0 <= m < f ==> (#[trigger] b.field_weights@[m]).0@ != field_name@,
            decreases n - f,
        {
            if b.field_weights[f].0.eq(&fname_s) {
                let ghost before = b.field_weights@;
                let mut entry: (String, FieldWeight) = (fname_s, fw);
                b.field_weights.set_and_swap(f, &mut entry);
                proof {
                    lemma_lookup_weight_at(before, field_name@, f as int);
                    lemma_lookup_weight_at(b.field_weights@, field_name@, f as int);
                    assert forall|other: Seq<char>| other != field_name@ implies #[trigger]
                    lookup_weight(b.field_weights@, other) == lookup_weight(before, other) by {
                        lemma_lookup_replace_other(
                            b.field_weights@,
                            before,
                            other,
                            f as int,
                        );
                    }
                }
                return b;
            }
            f = f + 1;
        }
        let ghost before = b.field_weights@;
        b.field_weights.push((fname_s, fw));
        proof {
            lemma_lookup_none(before, field_name@);
            lemma_lookup_weight_at(b.field_weights@, field_name@, n as int);
            assert forall|other: Seq<char>| other != field_name@ implies #[trigger] lookup_weight(
                b.field_weights@,
                other,
            ) == lookup_weight(before, other) by {
                assert(b.field_weights@ == before.push(b.field_weights@.last()));
                lemma_lookup_push_other(before, b.field_weights@.last(), other);
            }
        }
        b
    }

    /// Fix the vector dimension.
    pub fn vector_dimension(self, dimension: usize) -> (r: SchemaBuilder)
        ensures
            r.field_weights == self.field_weights,
            r.tokenizer_config == self.tokenizer_config,
            r.vector_dimension == Some(dimension),
    {
        let mut b = self;
        b.vector_dimension = Some(dimension);
        b
    }

    /// Finish the schema.
    pub fn build(self) -> (r: Schema)
        ensures
            r.field_weights == self.field_weights,
            r.tokenizer_config == self.tokenizer_config,
            r.vector_dimension == self.vector_dimension,
    {
        Schema {
            field_weights: self.field_weights,
            tokenizer_config: self.tokenizer_config,
            vector_dimension: self.vector_dimension,
        }
    }
}

/// The first matching position determines the lookup.
proof fn lemma_lookup_weight_at(s: Seq<(String, FieldWeight)>, name: Seq<char>, f: int)
    requires
        0 <= f < s.len(),
        s[f].0@ == name,
        forall|m: int| 0 <= m < f ==> (#[trigger] s[m]).0@ != name,
    ensures
        lookup_weight(s, name) == Some(s[f].1),
    decreases f,
{
    if f == 0 {
    } else {
        assert(s[0].0@ != name);
        lemma_lookup_weight_at(s.drop_first(), name, f - 1);
    }
}

/// A list without the name holds no weight for it.
proof fn lemma_lookup_none(s: Seq<(String, FieldWeight)>, name: Seq<char>)
    requires
        forall|m: int| 0 <= m < s.len() ==> (#[trigger] s[m]).0@ != name,
    ensures
        lookup_weight(s, name) is None,
    decreases s.len(),
{
    if s.len() > 0 {
        assert(s[0].0@ != name);
        assert(forall|m: int| 0 <= m < s.drop_first().len() ==> (#[trigger] s.drop_first()[m]).0@
            != name);
        lemma_lookup_none(s.drop_first(), name);
    }
}

/// Replacing an entry whose name is not `key` leaves `key`'s lookup
/// alone.
proof fn lemma_lookup_replace_other(
    s1: Seq<(String, FieldWeight)>,
    s2: Seq<(String, FieldWeight)>,
    key: Seq<char>,
    f: int,
)
    requires
        s1.len() == s2.len(),
        0 <= f < s1.len(),
        forall|g: int| 0 <= g < s1.len() && g != f ==> #[trigger] s1[g] == s2[g],
        s1[f].0@ == s2[f].0@,
        s1[f].0@ != key,
    ensures
        lookup_weight(s1, key) == lookup_weight(s2, key),
    decreases s1.len(),
{
    if f == 0 {
        assert(s1.drop_first() =~= s2.drop_first());
    } else {
        assert(s1[0] == s2[0]);
        assert forall|g: int|
            0 <= g < s1.drop_first().len() && g != f - 1 implies #[trigger] s1.drop_first()[g]
            == s2.drop_first()[g] by {
            assert(s1.drop_first()[g] == s1[g + 1]);
        }
        lemma_lookup_replace_other(s1.drop_first(), s2.drop_first(), key, f - 1);
    }
}

/// Appending an entry whose name is not `key` leaves `key`'s lookup
/// alone.
proof fn lemma_lookup_push_other(s: Seq<(String, FieldWeight)>, x: (String, FieldWeight), key: Seq<
    char,
>)
    requires
        x.0@ != key,
    ensures
        lookup_weight(s.push(x), key) == lookup_weight(s, key),
    decreases s.len(),
{
    let p = s.push(x);
    if s.len() == 0 {
        assert(p[0] == x);
        assert(p[0].0@ != key);
        assert(p.drop_first() =~= Seq::<(String, FieldWeight)>::empty());
        assert(lookup_weight(p, key) == lookup_weight(p.drop_first(), key));
        assert(lookup_weight(p.drop_first(), key) is None);
        assert(lookup_weight(s, key) is None);
    } else {
        assert(p[0] == s[0]);
        assert(p.drop_first() =~= s.drop_first().push(x));
        lemma_lookup_push_other(s.drop_first(), x, key);
        if s[0].0@ == key {
            assert(lookup_weight(p, key) == Some(s[0].1));
            assert(lookup_weight(s, key) == Some(s[0].1));
        } else {
            assert(lookup_weight(p, key) == lookup_weight(p.drop_first(), key));
            assert(lookup_weight(s, key) == lookup_weight(s.drop_first(), key));
        }
    }
}

impl BM25Config {
    /// The engine configuration a schema induces: canonical k1 and delta,
    /// the schema's field weights and tokenizer settings.
    pub fn new(schema: &Schema) -> (r: BM25Config)
        ensures
            r.k1 == 1200,
            r.delta == 500,
            r.field_weights@.len() == schema.field_weights@.len(),
            forall|i: int|
                0 <= i < r.field_weights@.len() ==> (#[trigger] r.field_weights@[i]).0@
                    == schema.field_weights@[i].0@ && r.field_weights@[i].1
                    == schema.field_weights@[i].1,
            r.tokenizer_config == schema.tokenizer_config,
    {
        let mut fw: Vec<(String, FieldWeight)> = Vec::new();
        let mut i: usize = 0;
        while i < schema.field_weights.len()
            invariant
                i <= schema.field_weights@.len(),
                fw@.len() == i,
                forall|m: int|
                    0 <= m < i ==> (#[trigger] fw@[m]).0@ == schema.field_weights@[m].0@
                        && fw@[m].1 == schema.field_weights@[m].1,
            decreases schema.field_weights@.len() - i,
        {
            fw.push((schema.field_weights[i].0.clone(), schema.field_weights[i].1));
            i = i + 1;
        }
        BM25Config {
            k1: 1200,
            delta: 500,
            field_weights: fw,
            tokenizer_config: schema.tokenizer_config,
        }
    }
}

/// Options for compressed document storage.
#[derive(Debug, Clone, Copy, PartialEq, Eq, Structural)]
pub struct BrotliOptions {
    pub quality: i32,
}

/// The balanced compression quality for document storage.
pub fn default_quality() -> (r: i32)
    ensures
        r == 6,
{
    6
}

impl Default for BrotliOptions {
    /// The balanced default quality.
    fn default() -> (r: BrotliOptions)
        ensures
            r.quality == 6,
    {
        BrotliOptions { quality: default_quality() }
    }
}

/// A plain in-memory document store, keyed by document identifier.
#[derive(Debug)]
pub struct DocumentStore {
    pub documents: Vec<Document>,
}

impl DocumentStore {
    /// Stored identifiers are unique.
    pub open spec fn wf(&self) -> bool {
        forall|i: int, j: int|
            0 <= i < j < self.documents@.len() ==> (#[trigger] self.documents@[i]).id.0@ != (
            #[trigger] self.documents@[j]).id.0@
    }

    /// An empty store.
    pub fn new() -> (r: DocumentStore)
        ensures
            r.wf(),
            r.documents@.len() == 0,
    {
        DocumentStore { documents: Vec::new() }
    }

    /// The position of `id` in the store.
    fn find(&self, id: &DocumentId) -> (r: Option<usize>)
        ensures
            match r {
                Some(i) => i < self.documents@.len() && self.documents@[i as int].id.0@
                    == id.0@,
                None => forall|i: int|
                    0 <= i < self.documents@.len() ==> (#[trigger] self.documents@[i]).id.0@
                        != id.0@,
            },
    {
        let mut i: usize = 0;
        while i < self.documents.len()
            invariant
                i <= self.documents@.len(),
                forall|m: int|
                    0 <= m < i ==> (#[trigger] self.documents@[m]).id.0@ != id.0@,
            decreases self.documents@.len() - i,
        {
            if self.documents[i].id.0.eq(&id.0) {
                return Some(i);
            }
            i = i + 1;
        }
        None
    }

    /// Store a document: one stored under the same identifier is
    /// replaced in place, otherwise the document is appended; every other
    /// stored document is untouched.
    pub fn store_document(&mut self, doc: Document)
        requires
            old(self).wf(),
        ensures
            final(self).wf(),
            exists|i: int|
                #![trigger final(self).documents@[i]]
                {
                    &&& 0 <= i < final(self).documents@.len()
                    &&& final(self).documents@[i] == doc
                    &&& if i < old(self).documents@.len() {
                        &&& old(self).documents@[i].id.0@ == doc.id.0@
                        &&& final(self).documents@.len() == old(self).documents@.len()
                    } else {
                        &&& i == old(self).documents@.len()
                        &&& final(self).documents@.len() == i + 1
                    }
                    &&& forall|g: int|
                        0 <= g < final(self).documents@.len() && g != i && g < old(
                            self,
                        ).documents@.len() ==> #[trigger] final(self).documents@[g] == old(
                            self,
                        ).documents@[g]
                },
    {
        match self.find(&doc.id) {
            Some(i) => {
                let ghost stored = doc;
                let mut slot = doc;
                self.documents.set_and_swap(i, &mut slot);
                proof {
                    assert(self.documents@[i as int] == stored);
                    assert(self.documents@[i as int].id.0@
                        == old(self).documents@[i as int].id.0@);
                }
            },
            None => {
                let ghost stored = doc;
                self.documents.push(doc);
                proof {
                    assert(self.documents@[self.documents@.len() - 1] == stored);
                }
            },
        }
    }

    /// Fetch a document by identifier.
    pub fn get_document(&self, doc_id: &DocumentId) -> (r: Option<&Document>)
        ensures
            match r {
                Some(d) => d.id.0@ == doc_id.0@,
                None => forall|i: int|
                    0 <= i < self.documents@.len() ==> (#[trigger] self.documents@[i]).id.0@
                        != doc_id.0@,
            },
    {
        match self.find(doc_id) {
            Some(i) => Some(&self.documents[i]),
            None => None,
        }
    }

    /// Remove a document by identifier.
    pub fn remove_document(&mut self, doc_id: &DocumentId) -> (r: Option<Document>)
        requires
            old(self).wf(),
        ensures
            final(self).wf(),
            r is Some ==> r->0.id.0@ == doc_id.0@ && final(self).documents@.len() == old(
                self,
            ).documents@.len() - 1,
            r is None ==> *final(self) == *old(self) && (forall|i: int|
                0 <= i < old(self).documents@.len() ==> (#[trigger] old(
                    self,
                ).documents@[i]).id.0@ != doc_id.0@),
    {
        match self.find(doc_id) {
            Some(i) => {
                let d = self.documents.remove(i);
                proof {
                    assert forall|a: int, b: int|
                        0 <= a < b < self.documents@.len() implies (
                    #[trigger] self.documents@[a]).id.0@ != (
                    #[trigger] self.documents@[b]).id.0@ by {
                        let oa = if a < i {
                            a
                        } else {
                            a + 1
                        };
                        let ob = if b < i {
                            b
                        } else {
                            b + 1
                        };
                        assert(self.documents@[a] == old(self).documents@[oa]);
                        assert(self.documents@[b] == old(self).documents@[ob]);
                    }
                }
                Some(d)
            },
            None => None,
        }
    }

    /// The number of stored documents.
    pub fn document_count(&self) -> (r: usize)
        ensures
            r == self.documents@.len(),
    {
        self.documents.len()
    }

    /// Whether a document is stored under this identifier.
    pub fn contains_document(&self, doc_id: &DocumentId) -> (r: bool)
        ensures
            r == exists|i: int|
                0 <= i < self.documents@.len() && (#[trigger] self.documents@[i]).id.0@
                    == doc_id.0@,
    {
        match self.find(doc_id) {
            Some(i) => {
                proof {
                    assert(0 <= i < self.documents@.len() && (
                    #[trigger] self.documents@[i as int]).id.0@ == doc_id.0@);
                }
                true
            },
            None => false,
        }
    }

    /// All stored identifiers, in storage order.
    pub fn document_ids(&self) -> (r: Vec<DocumentId>)
        ensures
            r@.len() == self.documents@.len(),
            forall|i: int|
                0 <= i < r@.len() ==> (#[trigger] r@[i]).0@ == self.documents@[i].id.0@,
    {
        let mut r: Vec<DocumentId> = Vec::new();
        let mut i: usize = 0;
        while i < self.documents.len()
            invariant
                i <= self.documents@.len(),
                r@.len() == i,
                forall|m: int|
                    0 <= m < i ==> (#[trigger] r@[m]).0@ == self.documents@[m].id.0@,
            decreases self.documents@.len() - i,
        {
            r.push(DocumentId(self.documents[i].id.0.clone()));
            i = i + 1;
        }
        r
    }

    /// Drop every stored document.
    pub fn clear(&mut self)
        ensures
            final(self).wf(),
            final(self).documents@.len() == 0,
    {
        self.documents = Vec::new();
    }
}

/// The text a value list contributes to the scan blob: each text value
/// followed by one blank, vectors skipped.
pub open spec fn values_text(vs: Seq<Value>) -> Seq<char>
    decreases vs.len(),
{
    if vs.len() == 0 {
        Seq::empty()
    } else {
        values_text(vs.drop_last()) + (match vs.last() {
            Value::Text(t) => t@ + seq![' '],
            Value::Vector(_) => Seq::empty(),
        })
    }
}

/// The concatenated text of all attributes, in attribute order.
pub open spec fn doc_text(attrs: Seq<(String, Vec<Value>)>) -> Seq<char>
    decreases attrs.len(),
{
    if attrs.len() == 0 {
        Seq::empty()
    } else {
        doc_text(attrs.drop_last()) + values_text(attrs.last().1@)
    }
}

/// One installed document.
#[derive(Debug)]
pub struct DocumentEntry {
    pub index: EntryIndex,
    pub document: Document,
}

/// A document entry together with flattened text fields and token
/// counts, as some retrieval paths cache them.
#[derive(Debug)]
pub struct TextDocumentEntry {
    pub entry: DocumentEntry,
    pub text_content: Vec<(String, String)>,
    pub token_counts: Vec<(String, u64)>,
}

/// The document collection: entries in insertion order and the next free
/// entry index.
#[derive(Debug)]
pub struct Collection {
    pub documents: Vec<DocumentEntry>,
    pub doc_store: DocumentStore,
    pub next_index: EntryIndex,
}

impl Collection {
    /// An empty collection.
    pub fn new() -> (r: Collection)
        ensures
            r.documents@.len() == 0,
            r.doc_store.wf(),
            r.next_index == 0,
    {
        Collection { documents: Vec::new(), doc_store: DocumentStore::new(), next_index: 0 }
    }
}

/// The hybrid search engine.
#[derive(Debug)]
pub struct SearchEngine {
    pub collection: Collection,
    pub text_index: TextIndex,
    pub vector_index: VectorIndex,
    pub scan_store: ScanStore,
    pub schema: Schema,
    pub doc_id_mapping: Vec<String>,
}

impl SearchEngine {
    /// The engine invariant: the sub-indexes are well-formed, entries are
    /// dense, and every stored entry index resolves to an identifier.
    pub open spec fn wf(&self) -> bool {
        &&& self.text_index.wf()
        &&& self.vector_index.wf()
        &&& self.scan_store.wf()
        &&& self.doc_id_mapping@.len() == self.collection.next_index
        &&& self.collection.documents@.len() == self.collection.next_index
        &&& self.text_index.total_docs <= self.collection.next_index
        &&& forall|e: int|
            0 <= e < self.scan_store.entries@.len()
                ==> (#[trigger] self.scan_store.entries@[e]).entry
                < self.collection.next_index
        &&& forall|i: int|
            0 <= i < self.vector_index.doc_mapping@.len()
                ==> #[trigger] self.vector_index.doc_mapping@[i] < self.collection.next_index
    }

    /// An engine with an empty schema.
    pub fn new() -> (r: SearchEngine)
        ensures
            r.wf(),
            r.collection.next_index == 0,
    {
        SearchEngine {
            collection: Collection::new(),
            text_index: TextIndex::new(),
            vector_index: VectorIndex::new(),
            scan_store: ScanStore::new(),
            schema: Schema::builder().build(),
            doc_id_mapping: Vec::new(),
        }
    }

    /// An engine configured by `schema`; a schema vector dimension fixes
    /// the vector index's dimension up front.
    pub fn with_schema(schema: Schema) -> (r: SearchEngine)
        ensures
            r.wf(),
            r.collection.next_index == 0,
            r.schema.field_weights == schema.field_weights,
            r.schema.tokenizer_config == schema.tokenizer_config,
            r.schema.vector_dimension == schema.vector_dimension,
            // a schema dimension freezes the vector index up front
            match schema.vector_dimension {
                Some(d) => r.vector_index.enabled && r.vector_index.dimension == d,
                None => !r.vector_index.enabled,
            },
            r.vector_index.doc_mapping@.len() == 0,
            r.text_index.terms@.len() == 0,
            r.text_index.config.tokenizer_config == schema.tokenizer_config,
            r.scan_store.entries@.len() == 0,
    {
        let config = BM25Config::new(&schema);
        let vector_index = match schema.get_vector_dimension() {
            Some(dim) => VectorIndex::with_dimension(dim),
            None => VectorIndex::new(),
        };
        SearchEngine {
            collection: Collection::new(),
            text_index: TextIndex::with_config(config),
            vector_index,
            scan_store: ScanStore::new(),
            schema,
            doc_id_mapping: Vec::new(),
        }
    }

    /// Install a document in every index: the vector store first (its
    /// dimension check is the only thing that can fail, and it fails
    /// without a trace), then the lexical index per text value, then the
    /// scan store, and finally the collection itself.
    pub fn add_document(&mut self, document: Document) -> (r: Result<(), IndexError>)
        requires
            old(self).wf(),
        ensures
            final(self).wf(),
            // success is owed exactly when an entry index is free and any
            // attached vector fits the frozen dimension
            r is Ok <==> old(self).collection.next_index < u32::MAX && (match document.vector {
                Some(v) => !(old(self).vector_index.enabled && v@.len() != old(
                    self,
                ).vector_index.dimension),
                None => true,
            }),
            old(self).collection.next_index == u32::MAX ==> r is Err && r->Err_0 is CacheError,
            r is Err && old(self).collection.next_index < u32::MAX ==> r->Err_0
                is SerializationError,
            r is Ok ==> final(self).collection.next_index == old(self).collection.next_index + 1
                && final(self).doc_id_mapping@.len() == old(self).doc_id_mapping@.len() + 1
                && final(self).doc_id_mapping@.last()@ == document.id.0@,
            r is Ok ==> forall|g: int|
                0 <= g < old(self).doc_id_mapping@.len() ==> #[trigger] final(self).doc_id_mapping@[g] == old(self).doc_id_mapping@[g],
            // the document itself lands at the end of the collection
            r is Ok ==> final(self).collection.documents@.len() == old(
                self,
            ).collection.documents@.len() + 1 && final(self).collection.documents@.last().index
                == old(self).collection.next_index && final(self).collection.documents@.last().document == document,
            r is Ok ==> forall|g: int|
                0 <= g < old(self).collection.documents@.len() ==> #[trigger] final(self).collection.documents@[g] == old(self).collection.documents@[g],
            // every text value is tokenized and indexed under the new
            // entry, with that entry as each token's latest posting
            r is Ok ==> forall|f: int, v: int|
                0 <= f < document.attributes@.len() && 0 <= v
                    < document.attributes@[f].1@.len() && (
                #[trigger] document.attributes@[f].1@[v]) is Text ==> value_tokens_indexed(
                    &final(self).text_index,
                    text_of(document.attributes@[f].1@[v]),
                    old(self).text_index.processor.config,
                    old(self).text_index.processor.stop_list(),
                    old(self).collection.next_index,
                ),
            // the scan store receives the document's concatenated text
            r is Ok ==> final(self).scan_store.entries@.len() == old(
                self,
            ).scan_store.entries@.len() + 1 && final(self).scan_store.entries@.last().entry
                == old(self).collection.next_index
                && final(self).scan_store.entries@.last().blob@ == normal_of(
                doc_text(document.attributes@),
            ),
            // the vector store grows by one row exactly when a usable
            // vector was attached
            r is Ok ==> (match document.vector {
                Some(v) => (old(self).vector_index.enabled || v@.len() > 0
                    ==> final(self).vector_index.doc_mapping@ == old(
                    self,
                ).vector_index.doc_mapping@.push(old(self).collection.next_index)) && (!old(
                    self,
                ).vector_index.enabled && v@.len() == 0 ==> final(self).vector_index == old(
                    self,
                ).vector_index),
                None => final(self).vector_index == old(self).vector_index,
            }),
            r is Err ==> *final(self) == *old(self),
    {
        let entry = self.collection.next_index;
        if entry == u32::MAX {
            return Err(
                IndexError::CacheError(String::from_str("the engine is out of entry indexes")),
            );
        }
        // stage the vector insert first: it is the only fallible step
        match &document.vector {
            Some(v) => {
                let vcopy = copy_u32_vec(v);
                match self.vector_index.add_vector(entry, vcopy) {
                    Ok(()) => {
                    },
                    Err(e) => {
                        // the one rejection is a dimension mismatch; name
                        // the frozen dimension in the error text
                        let expected = crate::errors::dec_u64(
                            self.vector_index.dimension as u64,
                        );
                        return Err(
                            IndexError::SerializationError(
                                String::from_str("vector index error: ").concat(
                                    e.message().as_str(),
                                ).concat(": expected dimension ").concat(expected.as_str()),
                            ),
                        );
                    },
                }
            },
            None => {
            },
        }
        // lexical index, one call per text value
        let ghost after_vec = *self;
        let mut f: usize = 0;
        while f < document.attributes.len()
            invariant
                self.text_index.wf(),
                self.text_index.total_docs <= entry + 1,
                entry < u32::MAX,
                self.vector_index == after_vec.vector_index,
                self.scan_store == after_vec.scan_store,
                self.collection == after_vec.collection,
                self.doc_id_mapping == after_vec.doc_id_mapping,
                self.schema == after_vec.schema,
                self.text_index.processor == after_vec.text_index.processor,
                self.text_index.terms@.len() >= after_vec.text_index.terms@.len(),
                forall|t: int|
                    0 <= t < after_vec.text_index.terms@.len() ==> #[trigger] self.text_index
                        .terms@[t] == after_vec.text_index.terms@[t],
                forall|t: int|
                    0 <= t < after_vec.text_index.terms@.len() ==> postings_appended(
                        after_vec.text_index.postings@[t]@,
                        #[trigger] self.text_index.postings@[t]@,
                        entry,
                    ),
                forall|f2: int, v2: int|
                    0 <= f2 < f && 0 <= v2 < document.attributes@[f2].1@.len() && (
                    #[trigger] document.attributes@[f2].1@[v2]) is Text
                        ==> value_tokens_indexed(
                        &self.text_index,
                        text_of(document.attributes@[f2].1@[v2]),
                        after_vec.text_index.processor.config,
                        after_vec.text_index.processor.stop_list(),
                        entry,
                    ),
            decreases document.attributes@.len() - f,
        {
            let mut v: usize = 0;
            let nv = document.attributes[f].1.len();
            while v < nv
                invariant
                    self.text_index.wf(),
                    self.text_index.total_docs <= entry + 1,
                    entry < u32::MAX,
                    f < document.attributes@.len(),
                    nv == document.attributes@[f as int].1@.len(),
                    self.vector_index == after_vec.vector_index,
                    self.scan_store == after_vec.scan_store,
                    self.collection == after_vec.collection,
                    self.doc_id_mapping == after_vec.doc_id_mapping,
                    self.schema == after_vec.schema,
                    self.text_index.processor == after_vec.text_index.processor,
                    self.text_index.terms@.len() >= after_vec.text_index.terms@.len(),
                    forall|t: int|
                        0 <= t < after_vec.text_index.terms@.len() ==> #[trigger] self.text_index
                            .terms@[t] == after_vec.text_index.terms@[t],
                    forall|t: int|
                        0 <= t < after_vec.text_index.terms@.len() ==> postings_appended(
                            after_vec.text_index.postings@[t]@,
                            #[trigger] self.text_index.postings@[t]@,
                            entry,
                        ),
                    forall|f2: int, v2: int|
                        0 <= f2 < f && 0 <= v2 < document.attributes@[f2].1@.len() && (
                        #[trigger] document.attributes@[f2].1@[v2]) is Text
                            ==> value_tokens_indexed(
                            &self.text_index,
                            text_of(document.attributes@[f2].1@[v2]),
                            after_vec.text_index.processor.config,
                            after_vec.text_index.processor.stop_list(),
                            entry,
                        ),
                    forall|v2: int|
                        0 <= v2 < v && (#[trigger] document.attributes@[f as int].1@[v2])
                            is Text ==> value_tokens_indexed(
                            &self.text_index,
                            text_of(document.attributes@[f as int].1@[v2]),
                            after_vec.text_index.processor.config,
                            after_vec.text_index.processor.stop_list(),
                            entry,
                        ),
                decreases nv - v,
            {
                let ghost mid_ti = self.text_index;
                match &document.attributes[f].1[v] {
                    Value::Text(text) => {
                        let fname = &document.attributes[f].0;
                        self.text_index.add_document(entry, fname.as_str(), text.as_str());
                        proof {
                            lemma_ingest_step(
                                &after_vec.text_index,
                                &mid_ti,
                                &self.text_index,
                                entry,
                            );
                            assert(value_tokens_indexed(
                                &self.text_index,
                                text_of(document.attributes@[f as int].1@[v as int]),
                                after_vec.text_index.processor.config,
                                after_vec.text_index.processor.stop_list(),
                                entry,
                            ));
                            assert forall|f2: int, v2: int|
                                0 <= f2 < f && 0 <= v2 < document.attributes@[f2].1@.len() && (
                                #[trigger] document.attributes@[f2].1@[v2]) is Text
                                implies value_tokens_indexed(
                                &self.text_index,
                                text_of(document.attributes@[f2].1@[v2]),
                                after_vec.text_index.processor.config,
                                after_vec.text_index.processor.stop_list(),
                                entry,
                            ) by {
                                lemma_value_tokens_preserved(
                                    &mid_ti,
                                    &self.text_index,
                                    text_of(document.attributes@[f2].1@[v2]),
                                    after_vec.text_index.processor.config,
                                    after_vec.text_index.processor.stop_list(),
                                    entry,
                                );
                            }
                            assert forall|v2: int|
                                0 <= v2 < v + 1 && (
                                #[trigger] document.attributes@[f as int].1@[v2]) is Text
                                implies value_tokens_indexed(
                                &self.text_index,
                                text_of(document.attributes@[f as int].1@[v2]),
                                after_vec.text_index.processor.config,
                                after_vec.text_index.processor.stop_list(),
                                entry,
                            ) by {
                                if v2 < v {
                                    lemma_value_tokens_preserved(
                                        &mid_ti,
                                        &self.text_index,
                                        text_of(document.attributes@[f as int].1@[v2]),
                                        after_vec.text_index.processor.config,
                                        after_vec.text_index.processor.stop_list(),
                                        entry,
                                    );
                                }
                            }
                        }
                    },
                    Value::Vector(_) => {
                    },
                }
                v = v + 1;
            }
            f = f + 1;
        }
        // scan store: one blob of all text values
        let ghost after_text = *self;
        let ghost attrs = document.attributes@;
        let mut blob_src = String::new();
        let mut f2: usize = 0;
        while f2 < document.attributes.len()
            invariant
                *self == after_text,
                f2 <= attrs.len(),
                attrs == document.attributes@,
                blob_src@ =~= doc_text(attrs.take(f2 as int)),
            decreases document.attributes@.len() - f2,
        {
            let nv = document.attributes[f2].1.len();
            let ghost vals = attrs[f2 as int].1@;
            let ghost base = blob_src@;
            let mut v: usize = 0;
            while v < nv
                invariant
                    *self == after_text,
                    v <= nv,
                    f2 < attrs.len(),
                    attrs == document.attributes@,
                    vals == attrs[f2 as int].1@,
                    nv == vals.len(),
                    blob_src@ =~= base + values_text(vals.take(v as int)),
                decreases nv - v,
            {
                match &document.attributes[f2].1[v] {
                    Value::Text(text) => {
                        blob_src.append(text.as_str());
                        blob_src.append(" ");
                        proof {
                            reveal_strlit(" ");
                            assert(" "@ =~= seq![' ']);
                            assert(vals.take(v + 1).drop_last() =~= vals.take(v as int));
                            assert(vals.take(v + 1).last() == vals[v as int]);
                            assert(blob_src@ =~= base + values_text(vals.take(v + 1)));
                        }
                    },
                    Value::Vector(_) => {
                        proof {
                            assert(vals.take(v + 1).drop_last() =~= vals.take(v as int));
                            assert(vals.take(v + 1).last() == vals[v as int]);
                            assert(blob_src@ =~= base + values_text(vals.take(v + 1)));
                        }
                    },
                }
                v = v + 1;
            }
            proof {
                assert(vals.take(vals.len() as int) =~= vals);
                assert(attrs.take(f2 + 1).drop_last() =~= attrs.take(f2 as int));
                assert(attrs.take(f2 + 1).last() == attrs[f2 as int]);
                assert(blob_src@ =~= doc_text(attrs.take(f2 + 1)));
            }
            f2 = f2 + 1;
        }
        proof {
            assert(attrs.take(attrs.len() as int) =~= attrs);
        }
        self.scan_store.add(entry, blob_src.as_str());
        // commit
        let id_string = document.id.0.clone();
        self.collection.documents.push(DocumentEntry { index: entry, document });
        self.doc_id_mapping.push(id_string);
        self.collection.next_index = entry + 1;
        proof {
            assert forall|e: int|
                0 <= e < self.scan_store.entries@.len() implies (
            #[trigger] self.scan_store.entries@[e]).entry < self.collection.next_index by {
                if e < after_text.scan_store.entries@.len() {
                    assert(self.scan_store.entries@[e] == after_text.scan_store.entries@[e]);
                    assert(after_text.scan_store.entries@[e].entry < entry);
                } else {
                    assert(self.scan_store.entries@[e].entry == entry);
                }
            }
            assert forall|i: int|
                0 <= i < self.vector_index.doc_mapping@.len()
                implies #[trigger] self.vector_index.doc_mapping@[i]
                < self.collection.next_index by {
                assert(self.vector_index == after_vec.vector_index);
                if i < old(self).vector_index.doc_mapping@.len() {
                    assert(after_vec.vector_index.doc_mapping@[i] == old(
                        self,
                    ).vector_index.doc_mapping@[i]);
                } else {
                    assert(after_vec.vector_index.doc_mapping@[i] == entry);
                }
            }
        }
        Ok(())
    }

    /// The identifier a document entry resolves to.
    pub fn document_id_of(&self, entry: u32) -> (r: Option<String>)
        requires
            self.wf(),
        ensures
            entry < self.doc_id_mapping@.len() ==> r is Some && r->0@
                == self.doc_id_mapping@[entry as int]@,
            entry >= self.doc_id_mapping@.len() ==> r is None,
    {
        if (entry as usize) < self.doc_id_mapping.len() {
            Some(self.doc_id_mapping[entry as usize].clone())
        } else {
            None
        }
    }

    /// Map ranked `(entry, score)` pairs to identified results.
    pub fn convert_results(&self, results: &Vec<(u32, u64)>) -> (r: Vec<SearchResult>)
        requires
            self.wf(),
            forall|i: int|
                0 <= i < results@.len() ==> (#[trigger] results@[i]).0
                    < self.doc_id_mapping@.len(),
        ensures
            r@.len() == results@.len(),
            forall|i: int|
                0 <= i < r@.len() ==> (#[trigger] r@[i]).score == results@[i].1
                    && r@[i].document_id@ == self.doc_id_mapping@[results@[i].0 as int]@,
    {
        let mut r: Vec<SearchResult> = Vec::new();
        let mut i: usize = 0;
        while i < results.len()
            invariant
                i <= results@.len(),
                r@.len() == i,
                forall|m: int|
                    0 <= m < results@.len() ==> (#[trigger] results@[m]).0
                        < self.doc_id_mapping@.len(),
                forall|m: int|
                    0 <= m < i ==> (#[trigger] r@[m]).score == results@[m].1
                        && r@[m].document_id@ == self.doc_id_mapping@[results@[m].0 as int]@,
            decreases results@.len() - i,
        {
            let (entry, score) = results[i];
            r.push(
                SearchResult {
                    document_id: self.doc_id_mapping[entry as usize].clone(),
                    score,
                },
            );
            i = i + 1;
        }
        r
    }

    /// Substring query over the scan store, results ranked and resolved
    /// to identifiers.
    pub fn search_substring(&self, query: &str, top_k: usize) -> (r: Vec<SearchResult>)
        requires
            self.wf(),
        ensures
            normal_of(query@).len() == 0 ==> r@.len() == 0,
            normal_of(query@).len() > 0 ==> exists|s: Seq<(u32, u64)>|
                {
                    &&& #[trigger] is_top_k(
                        scored_substring(self.scan_store.entries@, normal_of(query@)),
                        s,
                        top_k as int,
                    )
                    &&& r@.len() == s.len()
                    &&& (forall|i: int|
                        0 <= i < r@.len() ==> (#[trigger] r@[i]).score == s[i].1
                            && r@[i].document_id@ == self.doc_id_mapping@[s[i].0 as int]@)
                },
    {
        let ranked = self.scan_store.search_substring(query, top_k);
        proof {
            if normal_of(query@).len() > 0 {
                crate::scan::lemma_scored_substring_entry_bound(
                    self.scan_store.entries@,
                    normal_of(query@),
                    self.collection.next_index as int,
                );
                lemma_ranked_entries_bounded(
                    scored_substring(self.scan_store.entries@, normal_of(query@)),
                    ranked@,
                    self.collection.next_index as int,
                );
            }
        }
        let r = self.convert_results(&ranked);
        proof {
            if normal_of(query@).len() > 0 {
                assert(is_top_k(
                    scored_substring(self.scan_store.entries@, normal_of(query@)),
                    ranked@,
                    top_k as int,
                ) && r@.len() == ranked@.len() && (forall|i: int|
                    0 <= i < r@.len() ==> (#[trigger] r@[i]).score == ranked@[i].1
                        && r@[i].document_id@ == self.doc_id_mapping@[ranked@[i].0 as int]@));
            }
        }
        r
    }

    /// Fuzzy query over the scan store, results ranked and resolved to
    /// identifiers.  `max_edits` is clamped to 4.
    pub fn search_fuzzy(&self, query: &str, top_k: usize, max_edits: usize) -> (r: Vec<
        SearchResult,
    >)
        requires
            self.wf(),
        ensures
            crate::scan::alnum_runs(lower_of(query@)).len() == 0 ==> r@.len() == 0,
            crate::scan::alnum_runs(lower_of(query@)).len() > 0 ==> exists|s: Seq<(u32, u64)>|
                {
                    &&& #[trigger] is_top_k(
                        scored_fuzzy(
                            self.scan_store.entries@,
                            crate::scan::alnum_runs(lower_of(query@)),
                            normal_of(query@),
                            crate::scan::clamp_edits(max_edits as int),
                        ),
                        s,
                        top_k as int,
                    )
                    &&& r@.len() == s.len()
                    &&& (forall|i: int|
                        0 <= i < r@.len() ==> (#[trigger] r@[i]).score == s[i].1
                            && r@[i].document_id@ == self.doc_id_mapping@[s[i].0 as int]@)
                },
    {
        let ranked = self.scan_store.search_fuzzy(query, top_k, max_edits);
        proof {
            if crate::scan::alnum_runs(lower_of(query@)).len() > 0 {
                crate::scan::lemma_scored_fuzzy_entry_bound(
                    self.scan_store.entries@,
                    crate::scan::alnum_runs(lower_of(query@)),
                    normal_of(query@),
                    crate::scan::clamp_edits(max_edits as int),
                    self.collection.next_index as int,
                );
                lemma_ranked_entries_bounded(
                    scored_fuzzy(
                        self.scan_store.entries@,
                        crate::scan::alnum_runs(lower_of(query@)),
                        normal_of(query@),
                        crate::scan::clamp_edits(max_edits as int),
                    ),
                    ranked@,
                    self.collection.next_index as int,
                );
            }
        }
        let r = self.convert_results(&ranked);
        r
    }

    /// The number of installed documents and of distinct indexed terms.
    pub fn get_stats(&self) -> (r: (usize, usize))
        ensures
            r.0 == self.collection.documents@.len(),
            r.1 == self.text_index.terms@.len(),
    {
        (self.collection.documents.len(), self.text_index.terms.len())
    }
}

/// A copy of a vector of bit patterns.
fn copy_u32_vec(v: &Vec<u32>) -> (r: Vec<u32>)
    ensures
        r@ == v@,
{
    let mut r: Vec<u32> = Vec::new();
    let mut i: usize = 0;
    while i < v.len()
        invariant
            i <= v@.len(),
            r@ =~= v@.take(i as int),
        decreases v@.len() - i,
    {
        r.push(v[i]);
        proof {
            assert(r@ =~= v@.take(i + 1));
        }
        i = i + 1;
    }
    proof {
        assert(v@.take(v@.len() as int) =~= v@);
    }
    r
}

/// Chain the append-only relation of the text index across one more
/// ingest call of the same document.
proof fn lemma_ingest_step(base: &TextIndex, mid: &TextIndex, post: &TextIndex, doc: u32)
    requires
        base.terms@.len() <= mid.terms@.len() <= post.terms@.len(),
        forall|t: int|
            0 <= t < base.terms@.len() ==> #[trigger] mid.terms@[t] == base.terms@[t],
        forall|t: int|
            0 <= t < mid.terms@.len() ==> #[trigger] post.terms@[t] == mid.terms@[t],
        forall|t: int|
            0 <= t < base.terms@.len() ==> postings_appended(
                base.postings@[t]@,
                #[trigger] mid.postings@[t]@,
                doc,
            ),
        forall|t: int|
            0 <= t < mid.terms@.len() ==> postings_appended(
                mid.postings@[t]@,
                #[trigger] post.postings@[t]@,
                doc,
            ),
    ensures
        forall|t: int|
            0 <= t < base.terms@.len() ==> #[trigger] post.terms@[t] == base.terms@[t],
        forall|t: int|
            0 <= t < base.terms@.len() ==> postings_appended(
                base.postings@[t]@,
                #[trigger] post.postings@[t]@,
                doc,
            ),
{
    assert forall|t: int|
        0 <= t < base.terms@.len() implies postings_appended(
        base.postings@[t]@,
        #[trigger] post.postings@[t]@,
        doc,
    ) by {
        lemma_postings_appended_trans(
            base.postings@[t]@,
            mid.postings@[t]@,
            post.postings@[t]@,
            doc,
        );
    }
}

/// Entries of a ranked selection stay within the bound its source
/// respected.
proof fn lemma_ranked_entries_bounded(
    scored: Seq<(u32, u64)>,
    ranked: Seq<(u32, u64)>,
    bound: int,
)
    requires
        ranked.to_multiset().subset_of(scored.to_multiset()),
        forall|i: int| 0 <= i < scored.len() ==> (#[trigger] scored[i]).0 < bound,
    ensures
        forall|i: int| 0 <= i < ranked.len() ==> (#[trigger] ranked[i]).0 < bound,
{
    broadcast use vstd::seq_lib::group_to_multiset_ensures, vstd::multiset::group_multiset_axioms;

    assert forall|i: int| 0 <= i < ranked.len() implies (#[trigger] ranked[i]).0 < bound by {
        let x = ranked[i];
        assert(ranked.contains(x));
        assert(ranked.to_multiset().count(x) > 0);
        assert(scored.to_multiset().count(x) > 0);
        assert(scored.contains(x));
        let j = choose|j: int| 0 <= j < scored.len() && scored[j] == x;
        assert(scored[j].0 < bound);
    }
}

} // verus!

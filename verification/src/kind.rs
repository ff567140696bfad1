//! Semantic field kinds and their BM25F weights.
//!
//! Weights and length-normalization parameters are kept in exact
//! per-mille units (`2500` stands for a weight of 2.5, `750` for b = 0.75);
//! the embedding application divides by 1000 when it computes scores, which
//! reproduces the canonical floating-point constants exactly.

use vstd::prelude::*;

verus! {

/// Semantic field roles with automatic BM25F weight assignment.
#[derive(Debug, Clone, Copy, PartialEq, Eq, Hash, Structural)]
#[allow(non_camel_case_types)]
pub enum Kind {
    TITLE,
    CONTENT,
    DESCRIPTION,
    HEADING,
    TAGS,
    AUTHOR,
    DATE,
    REFERENCE,
    TEXT,
}

impl Kind {
    /// The canonical (weight, b) pair for this kind, in per-mille units.
    pub fn weights(&self) -> (r: (u32, u32))
        ensures
            r == self.spec_weights(),
    {
        match self {
            Kind::TITLE => (2500, 750),
            Kind::CONTENT => (1000, 750),
            Kind::DESCRIPTION => (1500, 750),
            Kind::HEADING => (2000, 750),
            Kind::TAGS => (1800, 500),
            Kind::AUTHOR => (1200, 600),
            Kind::DATE => (800, 500),
            Kind::REFERENCE => (600, 500),
            Kind::TEXT => (1000, 750),
        }
    }

    /// What `weights` returns.
    pub open spec fn spec_weights(self) -> (u32, u32) {
        match self {
            Kind::TITLE => (2500u32, 750u32),
            Kind::CONTENT => (1000, 750),
            Kind::DESCRIPTION => (1500, 750),
            Kind::HEADING => (2000, 750),
            Kind::TAGS => (1800, 500),
            Kind::AUTHOR => (1200, 600),
            Kind::DATE => (800, 500),
            Kind::REFERENCE => (600, 500),
            Kind::TEXT => (1000, 750),
        }
    }

    /// The boost factor (per-mille) for this kind.
    pub fn weight(&self) -> (r: u32)
        ensures
            r == self.spec_weights().0,
    {
        self.weights().0
    }

    /// The length-normalization parameter b (per-mille) for this kind.
    pub fn b_param(&self) -> (r: u32)
        ensures
            r == self.spec_weights().1,
    {
        self.weights().1
    }
}

/// Languages the text pipeline can be configured with.  Stop words and
/// stemming are wired for English, as in the engine's defaults.
#[derive(Debug, Clone, Copy, PartialEq, Eq, Structural)]
pub enum Language {
    English,
    German,
    French,
    Spanish,
    Italian,
    Portuguese,
    Dutch,
    Russian,
    Chinese,
    Japanese,
    Arabic,
}

/// Per-field weight configuration for BM25FS+ (per-mille units).
#[derive(Debug, Clone, Copy, PartialEq, Eq, Structural)]
pub struct FieldWeight {
    pub weight: u32,
    pub b: u32,
    pub kind: Kind,
}

impl FieldWeight {
    /// The canonical weights of `kind`.
    pub fn new(kind: Kind) -> (r: FieldWeight)
        ensures
            r.weight == kind.spec_weights().0,
            r.b == kind.spec_weights().1,
            r.kind == kind,
    {
        let (weight, b) = kind.weights();
        FieldWeight { weight, b, kind }
    }

    /// A custom weight, keeping the kind's b unless one is given.
    pub fn with_custom_weight(kind: Kind, weight: u32, b: Option<u32>) -> (r: FieldWeight)
        ensures
            r.weight == weight,
            r.b == if b is Some {
                b->0
            } else {
                kind.spec_weights().1
            },
            r.kind == kind,
    {
        let default_b = kind.b_param();
        FieldWeight { weight, b: b.unwrap_or(default_b), kind }
    }
}

impl Default for FieldWeight {
    /// The baseline content field.
    fn default() -> (r: FieldWeight)
        ensures
            r == FieldWeight::new_spec_default(),
    {
        FieldWeight::new(Kind::CONTENT)
    }
}

impl FieldWeight {
    /// What `Default::default` returns.
    pub open spec fn new_spec_default() -> FieldWeight {
        FieldWeight { weight: 1000, b: 750, kind: Kind::CONTENT }
    }
}

} // verus!

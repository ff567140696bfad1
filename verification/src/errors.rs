//! Error types surfaced at the engine and language-identifier boundaries.

use vstd::prelude::*;
use vstd::string::StringExecFns;

verus! {

/// Errors of the lexical index and the document collection.
#[derive(Debug, Clone, PartialEq, Eq)]
pub enum IndexError {
    SerializationError(String),
    CacheError(String),
    NotFound(String),
}

impl IndexError {
    /// A human-readable description, in place of `Display`.
    pub fn message(&self) -> String {
        match self {
            IndexError::SerializationError(m) => {
                String::from_str("serialization error: ").concat(m.as_str())
            },
            IndexError::CacheError(m) => String::from_str("cache error: ").concat(m.as_str()),
            IndexError::NotFound(m) => String::from_str("not found: ").concat(m.as_str()),
        }
    }
}

/// Errors of the dense-vector index.
#[derive(Debug, Clone, Copy, PartialEq, Eq, Structural)]
pub enum VectorError {
    DimensionMismatch,
    NotNormalized,
    CapacityExceeded,
}

impl VectorError {
    /// A human-readable description, in place of `Display`.
    pub fn message(&self) -> String {
        match self {
            VectorError::DimensionMismatch => String::from_str("vector dimension mismatch"),
            VectorError::NotNormalized => String::from_str("vector is not normalized"),
            VectorError::CapacityExceeded => String::from_str("vector capacity exceeded"),
        }
    }
}

/// Errors of the language-identification model loader and predictor.
///
/// `Io` carries the text of the I/O failure met by the caller that read the
/// model file; the parser itself never produces it.
#[derive(Debug, Clone, PartialEq, Eq)]
pub enum LidError {
    Io(String),
    BadHeader,
    Unsupported,
    BadDims,
    EmptyInput,
}

impl LidError {
    /// A human-readable description, in place of `Display`.
    pub fn message(&self) -> String {
        match self {
            LidError::Io(m) => String::from_str("i/o error: ").concat(m.as_str()),
            LidError::BadHeader => String::from_str(
                "not a fastText model or wrong version (magic/version)",
            ),
            LidError::Unsupported => String::from_str("unsupported quantisation layout"),
            LidError::BadDims => String::from_str("model expects dim to be divisible by nsub"),
            LidError::EmptyInput => String::from_str(
                "prediction requested for empty input string",
            ),
        }
    }
}

/// The character of one decimal digit.
pub open spec fn digit_char(d: nat) -> char {
    if d == 0 {
        '0'
    } else if d == 1 {
        '1'
    } else if d == 2 {
        '2'
    } else if d == 3 {
        '3'
    } else if d == 4 {
        '4'
    } else if d == 5 {
        '5'
    } else if d == 6 {
        '6'
    } else if d == 7 {
        '7'
    } else if d == 8 {
        '8'
    } else {
        '9'
    }
}

/// The decimal digits of `n`, most significant first.
pub open spec fn dec_of(n: nat) -> Seq<char>
    decreases n,
{
    if n < 10 {
        seq![digit_char(n)]
    } else {
        dec_of(n / 10).push(digit_char(n % 10))
    }
}

/// One decimal digit as a character.
fn digit_of(d: u64) -> (r: char)
    requires
        d < 10,
    ensures
        r == digit_char(d as nat),
{
    if d == 0 {
        '0'
    } else if d == 1 {
        '1'
    } else if d == 2 {
        '2'
    } else if d == 3 {
        '3'
    } else if d == 4 {
        '4'
    } else if d == 5 {
        '5'
    } else if d == 6 {
        '6'
    } else if d == 7 {
        '7'
    } else if d == 8 {
        '8'
    } else {
        '9'
    }
}

/// Render a number in decimal, for error texts.
pub fn dec_u64(n: u64) -> (r: String)
    ensures
        r@ == dec_of(n as nat),
    decreases n,
{
    if n < 10 {
        let mut s = String::new();
        crate::tokenize::push_char(&mut s, digit_of(n));
        s
    } else {
        let mut s = dec_u64(n / 10);
        crate::tokenize::push_char(&mut s, digit_of(n % 10));
        s
    }
}

} // verus!

//! Quantised fastText-compatible language identification: the binary model
//! format, subword FNV-1a hashing, and n-gram row selection.
//!
//! Everything here is integer and byte logic and is verified: the header
//! and layout checks, the product-quantisation tables (centroids are kept
//! as 32-bit patterns), and the hashing that picks embedding rows.
//! Reading the model file from disk and the floating-point classifier
//! (de-quantised dot products and softmax) belong to the embedding
//! application.

use crate::errors::LidError;
use vstd::prelude::*;

verus! {

/// FNV-1a offset basis (32-bit).
pub const FNV_OFFSET: u32 = 2166136261;

/// FNV-1a prime (32-bit).
pub const FNV_PRIME: u32 = 16777619;

/// One FNV-1a step: xor the byte in, then multiply by the prime, wrapping.
pub open spec fn fnv1a_step(h: u32, b: u8) -> u32 {
    vstd::wrapping::u32_specs::wrapping_mul(h ^ (b as u32), FNV_PRIME)
}

/// FNV-1a state after folding `bytes` into state `h`, left to right.
pub open spec fn fnv1a_from(h: u32, bytes: Seq<u8>) -> u32
    decreases bytes.len(),
{
    if bytes.len() == 0 {
        h
    } else {
        fnv1a_from(fnv1a_step(h, bytes[0]), bytes.drop_first())
    }
}

/// The 32-bit FNV-1a hash of a byte sequence.
pub open spec fn fnv1a(bytes: Seq<u8>) -> u32 {
    fnv1a_from(FNV_OFFSET, bytes)
}

/// fastText subword hash: 32-bit FNV-1a over the n-gram's bytes.
pub fn hash_ngram(bytes: &[u8]) -> (h: u32)
    ensures
        h == fnv1a(bytes@),
{
    let mut h: u32 = FNV_OFFSET;
    let mut i: usize = 0;
    proof {
        assert(bytes@.skip(0) =~= bytes@);
    }
    while i < bytes.len()
        invariant
            0 <= i <= bytes@.len(),
            fnv1a(bytes@) == fnv1a_from(h, bytes@.skip(i as int)),
        decreases bytes@.len() - i,
    {
        proof {
            assert(bytes@.skip(i as int)[0] == bytes@[i as int]);
            assert(bytes@.skip(i as int).drop_first() =~= bytes@.skip(i as int + 1));
        }
        h = (h ^ (bytes[i] as u32)).wrapping_mul(FNV_PRIME);
        i = i + 1;
    }
    proof {
        assert(bytes@.skip(i as int) =~= Seq::<u8>::empty());
    }
    h
}

/// The languages the bundled model distinguishes.
#[derive(Debug, Clone, Copy, PartialEq, Eq, Structural)]
pub enum Language {
    Arabic,
    Danish,
    Dutch,
    English,
    Finnish,
    French,
    German,
    Hungarian,
    Italian,
    Norwegian,
    Portuguese,
    Romanian,
    Russian,
    Spanish,
    Swedish,
    Turkish,
}

impl Language {
    /// The fastText label string used in the model.
    pub open spec fn label_view(self) -> Seq<char> {
        match self {
            Language::Arabic => "arb_Arab"@,
            Language::Danish => "dan_Latn"@,
            Language::Dutch => "nld_Latn"@,
            Language::English => "eng_Latn"@,
            Language::Finnish => "fin_Latn"@,
            Language::French => "fra_Latn"@,
            Language::German => "deu_Latn"@,
            Language::Hungarian => "hun_Latn"@,
            Language::Italian => "ita_Latn"@,
            Language::Norwegian => "nob_Latn"@,
            Language::Portuguese => "por_Latn"@,
            Language::Romanian => "ron_Latn"@,
            Language::Russian => "rus_Cyrl"@,
            Language::Spanish => "spa_Latn"@,
            Language::Swedish => "swe_Latn"@,
            Language::Turkish => "tur_Latn"@,
        }
    }

    /// The fastText label string used in the model.
    pub fn label(self) -> (r: &'static str)
        ensures
            r@ == self.label_view(),
    {
        match self {
            Language::Arabic => "arb_Arab",
            Language::Danish => "dan_Latn",
            Language::Dutch => "nld_Latn",
            Language::English => "eng_Latn",
            Language::Finnish => "fin_Latn",
            Language::French => "fra_Latn",
            Language::German => "deu_Latn",
            Language::Hungarian => "hun_Latn",
            Language::Italian => "ita_Latn",
            Language::Norwegian => "nob_Latn",
            Language::Portuguese => "por_Latn",
            Language::Romanian => "ron_Latn",
            Language::Russian => "rus_Cyrl",
            Language::Spanish => "spa_Latn",
            Language::Swedish => "swe_Latn",
            Language::Turkish => "tur_Latn",
        }
    }

    /// The language a fastText label names, when it is one of the
    /// model's sixteen.
    pub fn from_label(s: &str) -> (r: Option<Language>)
        ensures
            match r {
                Some(l) => s@ == l.label_view(),
                None => forall|l: Language| s@ != #[trigger] l.label_view(),
            },
    {
        let t = crate::text_index::str_to_string(s);
        if t.eq(&<String as vstd::string::StringExecFns>::from_str("arb_Arab")) {
            Some(Language::Arabic)
        } else if t.eq(&<String as vstd::string::StringExecFns>::from_str("dan_Latn")) {
            Some(Language::Danish)
        } else if t.eq(&<String as vstd::string::StringExecFns>::from_str("nld_Latn")) {
            Some(Language::Dutch)
        } else if t.eq(&<String as vstd::string::StringExecFns>::from_str("eng_Latn")) {
            Some(Language::English)
        } else if t.eq(&<String as vstd::string::StringExecFns>::from_str("fin_Latn")) {
            Some(Language::Finnish)
        } else if t.eq(&<String as vstd::string::StringExecFns>::from_str("fra_Latn")) {
            Some(Language::French)
        } else if t.eq(&<String as vstd::string::StringExecFns>::from_str("deu_Latn")) {
            Some(Language::German)
        } else if t.eq(&<String as vstd::string::StringExecFns>::from_str("hun_Latn")) {
            Some(Language::Hungarian)
        } else if t.eq(&<String as vstd::string::StringExecFns>::from_str("ita_Latn")) {
            Some(Language::Italian)
        } else if t.eq(&<String as vstd::string::StringExecFns>::from_str("nob_Latn")) {
            Some(Language::Norwegian)
        } else if t.eq(&<String as vstd::string::StringExecFns>::from_str("por_Latn")) {
            Some(Language::Portuguese)
        } else if t.eq(&<String as vstd::string::StringExecFns>::from_str("ron_Latn")) {
            Some(Language::Romanian)
        } else if t.eq(&<String as vstd::string::StringExecFns>::from_str("rus_Cyrl")) {
            Some(Language::Russian)
        } else if t.eq(&<String as vstd::string::StringExecFns>::from_str("spa_Latn")) {
            Some(Language::Spanish)
        } else if t.eq(&<String as vstd::string::StringExecFns>::from_str("swe_Latn")) {
            Some(Language::Swedish)
        } else if t.eq(&<String as vstd::string::StringExecFns>::from_str("tur_Latn")) {
            Some(Language::Turkish)
        } else {
            proof {
                assert forall|l: Language| s@ != #[trigger] l.label_view() by {
                    assert(t@ == s@);
                }
            }
            None
        }
    }
}

/// The fastText magic number.
pub const FASTTEXT_MAGIC: u32 = 0x12FD21E5;

/// The fastText format version this loader accepts.
pub const FASTTEXT_VERSION: u32 = 12;

/// The little-endian 32-bit value at offset `p`.
pub open spec fn u32_le(b: Seq<u8>, p: int) -> int {
    b[p] + 256 * (b[p + 1] + 256 * (b[p + 2] + 256 * b[p + 3]))
}

/// What `String::from_utf8_lossy` decodes these bytes to.
pub uninterp spec fn utf8_lossy_of(bytes: Seq<u8>) -> Seq<char>;

/// Relies on `String::from_utf8_lossy`: the decoding depends on the bytes
/// alone.
#[verifier::external_body]
fn bytes_to_string_lossy(b: &[u8]) -> (r: String)
    ensures
        r@ == utf8_lossy_of(b@),
{
    String::from_utf8_lossy(b).into_owned()
}

/// Read the little-endian u32 at `*pos`, advancing past it.
fn take_u32(bytes: &[u8], pos: &mut usize) -> (r: Result<u32, LidError>)
    requires
        *old(pos) <= bytes@.len(),
    ensures
        *final(pos) <= bytes@.len(),
        match r {
            Ok(v) => *old(pos) + 4 <= bytes@.len() && *final(pos) == *old(pos) + 4 && v == u32_le(
                bytes@,
                *old(pos) as int,
            ),
            Err(e) => e == LidError::Io(e->Io_0) && *final(pos) == *old(pos) && *old(pos) + 4
                > bytes@.len(),
        },
{
    if bytes.len() < 4 || *pos > bytes.len() - 4 {
        return Err(LidError::Io(err_truncated()));
    }
    let p = *pos;
    let v = (bytes[p] as u32) + 256 * ((bytes[p + 1] as u32) + 256 * ((bytes[p + 2] as u32) + 256
        * (bytes[p + 3] as u32)));
    *pos = p + 4;
    Ok(v)
}

/// Skip `n` bytes, checking they are present.
fn skip_bytes(bytes: &[u8], pos: &mut usize, n: u64) -> (r: Result<(), LidError>)
    requires
        *old(pos) <= bytes@.len(),
    ensures
        *final(pos) <= bytes@.len(),
        match r {
            Ok(_) => *old(pos) + n <= bytes@.len() && *final(pos) == *old(pos) + n,
            Err(e) => e == LidError::Io(e->Io_0) && *final(pos) == *old(pos) && *old(pos) + n
                > bytes@.len(),
        },
{
    if n > (bytes.len() - *pos) as u64 {
        return Err(LidError::Io(err_truncated()));
    }
    *pos = *pos + (n as usize);
    Ok(())
}

/// Copy `n` bytes from `*pos`, advancing past them.
fn take_bytes(bytes: &[u8], pos: &mut usize, n: u64) -> (r: Result<Vec<u8>, LidError>)
    requires
        *old(pos) <= bytes@.len(),
    ensures
        *final(pos) <= bytes@.len(),
        match r {
            Ok(v) => {
                &&& *old(pos) + n <= bytes@.len()
                &&& *final(pos) == *old(pos) + n
                &&& v@ == bytes@.subrange(*old(pos) as int, *old(pos) + n)
            },
            Err(e) => e == LidError::Io(e->Io_0) && *final(pos) == *old(pos) && *old(pos) + n
                > bytes@.len(),
        },
{
    if n > (bytes.len() - *pos) as u64 {
        return Err(LidError::Io(err_truncated()));
    }
    let start = *pos;
    proof {
        assert(n <= usize::MAX as u64);
    }
    let count = n as usize;
    proof {
        assert(start + count <= bytes@.len());
    }
    let mut v: Vec<u8> = Vec::new();
    let mut i: usize = 0;
    while i < count
        invariant
            i <= count,
            start + count <= bytes@.len(),
            bytes@.len() <= usize::MAX,
            v@ =~= bytes@.subrange(start as int, start as int + i as int),
        decreases count - i,
    {
        v.push(bytes[start + i]);
        proof {
            assert(v@ =~= bytes@.subrange(start as int, start as int + i + 1));
        }
        i = i + 1;
    }
    *pos = start + count;
    Ok(v)
}

/// Copy `n` little-endian u32 values from `*pos`, advancing past them.
fn take_u32s(bytes: &[u8], pos: &mut usize, n: u64) -> (r: Result<Vec<u32>, LidError>)
    requires
        *old(pos) <= bytes@.len(),
    ensures
        *final(pos) <= bytes@.len(),
        match r {
            Ok(v) => {
                &&& *old(pos) + 4 * n <= bytes@.len()
                &&& *final(pos) == *old(pos) + 4 * n
                &&& v@.len() == n
                &&& forall|k: int|
                    0 <= k < n ==> #[trigger] v@[k] == u32_le(bytes@, *old(pos) + 4 * k)
            },
            Err(e) => e == LidError::Io(e->Io_0) && *final(pos) == *old(pos) && (n > u64::MAX
                / 4 || *old(pos) + 4 * n > bytes@.len()),
        },
{
    if n > (u64::MAX / 4) || 4 * n > (bytes.len() - *pos) as u64 {
        return Err(LidError::Io(err_truncated()));
    }
    let start = *pos;
    proof {
        assert(4 * n <= bytes@.len() - start);
        assert(4 * (n as int) <= usize::MAX as int);
        assert(n <= usize::MAX as u64);
    }
    let count = (n as usize) * 4;
    let mut v: Vec<u32> = Vec::new();
    let mut i: usize = 0;
    while i < n as usize
        invariant
            i <= n as usize,
            n <= u64::MAX / 4,
            count == 4 * (n as int),
            start + 4 * (n as int) <= bytes@.len(),
            bytes@.len() <= usize::MAX,
            v@.len() == i,
            forall|k: int| 0 <= k < i ==> #[trigger] v@[k] == u32_le(bytes@, start + 4 * k),
        decreases n as usize - i,
    {
        proof {
            assert(4 * (i as int) + 4 <= 4 * (n as int)) by (nonlinear_arith)
                requires
                    i < n,
            ;
        }
        let p = start + 4 * i;
        let x = (bytes[p] as u32) + 256 * ((bytes[p + 1] as u32) + 256 * ((bytes[p + 2] as u32)
            + 256 * (bytes[p + 3] as u32)));
        v.push(x);
        i = i + 1;
    }
    *pos = start + count;
    Ok(v)
}

/// The text of the truncated-model error.
fn err_truncated() -> (r: String)
    ensures
        true,
{
    <String as vstd::string::StringExecFns>::from_str("unexpected end of model data")
}

/// The training arguments the identifier needs.
#[derive(Debug, Clone, Copy, PartialEq, Eq, Structural)]
pub struct LidArgs {
    pub dim: u32,
    pub bucket: u32,
    pub minn: u32,
    pub maxn: u32,
    pub nwords: u32,
}

/// A product-quantised matrix: `rows × nsub` code bytes and
/// `nsub × 256 × dsub` centroid components (bit patterns), with an
/// optional norm quantiser.
#[derive(Debug)]
pub struct QMatrix {
    pub qnorm: bool,
    pub rows: u32,
    pub dim: u32,
    pub nsub: u32,
    pub dsub: u32,
    pub codes: Vec<u8>,
    pub centroid_bits: Vec<u32>,
    pub norm_codes: Vec<u8>,
    pub norm_centroid_bits: Vec<u32>,
}

impl QMatrix {
    /// The table shapes the format promises.
    pub open spec fn wf(&self) -> bool {
        &&& self.nsub >= 1
        &&& self.dim == self.nsub * self.dsub
        &&& self.codes@.len() == self.rows * self.nsub
        &&& self.centroid_bits@.len() == self.nsub * 256 * self.dsub
        &&& self.qnorm ==> self.norm_codes@.len() == self.rows
            && self.norm_centroid_bits@.len() == 256
        &&& !self.qnorm ==> self.norm_codes@.len() == 0 && self.norm_centroid_bits@.len() == 0
    }

    /// De-quantise one row, as component bit patterns: sub-block `s` copies
    /// the `dsub` components of the centroid its code byte selects.  The
    /// optional norm factor is *not* applied; `norm_factor_bits` returns it.
    pub fn row_bits(&self, row: u32) -> (r: Vec<u32>)
        requires
            self.wf(),
            row < self.rows,
        ensures
            r@.len() == self.dim,
            forall|s: int, j: int|
                0 <= s < self.nsub && 0 <= j < self.dsub ==> #[trigger] r@[s * self.dsub + j]
                    == self.centroid_bits@[(s * 256 + self.codes@[row * self.nsub + s]) * self.dsub
                    + j],
    {
        let mut r: Vec<u32> = Vec::new();
        let mut s: usize = 0;
        let nsub = self.nsub as usize;
        let dsub = self.dsub as usize;
        let cl = self.codes.len();
        let cbl = self.centroid_bits.len();
        proof {
            lemma_qmatrix_bounds(self, row as int);
        }
        while s < nsub
            invariant
                s <= nsub,
                nsub == self.nsub,
                dsub == self.dsub,
                cl == self.codes@.len(),
                cbl == self.centroid_bits@.len(),
                self.wf(),
                row < self.rows,
                r@.len() == s * dsub,
                forall|s0: int, j: int|
                    0 <= s0 < s && 0 <= j < self.dsub ==> #[trigger] r@[s0 * self.dsub + j]
                        == self.centroid_bits@[(s0 * 256 + self.codes@[row * self.nsub + s0])
                        * self.dsub + j],
            decreases nsub - s,
        {
            proof {
                lemma_qmatrix_bounds(self, row as int);
                lemma_row_code_bound(self, row as int, s as int);
                assert(row as int * self.nsub + self.nsub <= cl);
            }
            let code = self.codes[(row as usize) * nsub + s] as usize;
            proof {
                if dsub > 0 {
                    assert(s * 256 + code <= (s as int * 256 + code) * dsub)
                        by (nonlinear_arith)
                        requires
                            dsub >= 1 && s >= 0 && code >= 0,
                    ;
                }
            }
            let cent_start = if dsub == 0 {
                0
            } else {
                (s * 256 + code) * dsub
            };
            proof {
                if dsub > 0 {
                    assert(cent_start == (s as int * 256 + code) * dsub);
                } else {
                    assert(cent_start as int + dsub <= cbl || dsub == 0);
                }
                assert(cent_start + dsub <= cbl || dsub == 0);
            }
            let ghost r0 = r@;
            let mut j: usize = 0;
            while j < dsub
                invariant
                    j <= dsub,
                    s < nsub,
                    nsub == self.nsub,
                    dsub == self.dsub,
                    self.wf(),
                    row < self.rows,
                    code == self.codes@[row as int * self.nsub + s] as int,
                    code < 256,
                    dsub > 0 ==> cent_start == (s * 256 + code) * dsub,
                    cent_start + dsub <= self.centroid_bits@.len() || dsub == 0,
                    self.centroid_bits@.len() <= usize::MAX,
                    r@.len() == s * dsub + j,
                    r@ =~= r0 + self.centroid_bits@.subrange(
                        cent_start as int,
                        cent_start as int + j as int,
                    ),
                    r0.len() == s * dsub,
                    forall|s0: int, j0: int|
                        0 <= s0 < s && 0 <= j0 < self.dsub ==> #[trigger] r0[s0 * self.dsub + j0]
                            == self.centroid_bits@[(s0 * 256 + self.codes@[row * self.nsub + s0])
                            * self.dsub + j0],
                decreases dsub - j,
            {
                r.push(self.centroid_bits[cent_start + j]);
                proof {
                    assert(r@ =~= r0 + self.centroid_bits@.subrange(
                        cent_start as int,
                        cent_start as int + j + 1,
                    ));
                }
                j = j + 1;
            }
            proof {
                assert((s + 1) * dsub == s * dsub + dsub) by (nonlinear_arith);
                assert forall|s0: int, j0: int|
                    0 <= s0 < s + 1 && 0 <= j0 < self.dsub implies #[trigger] r@[s0 * self.dsub
                    + j0] == self.centroid_bits@[(s0 * 256 + self.codes@[row * self.nsub + s0])
                    * self.dsub + j0] by {
                    if s0 < s {
                        assert(0 <= s0 * self.dsub + j0 < r0.len()) by (nonlinear_arith)
                            requires
                                0 <= s0 < s && 0 <= j0 < self.dsub && r0.len() == s
                                    * self.dsub,
                        ;
                        assert(r@[s0 * self.dsub + j0] == r0[s0 * self.dsub + j0]);
                    } else {
                        assert(s0 * self.dsub + j0 == r0.len() + j0) by (nonlinear_arith)
                            requires
                                s0 == s && r0.len() == s * self.dsub,
                        ;
                        assert(r@[r0.len() + j0] == self.centroid_bits@[cent_start + j0]);
                        assert((s * 256 + code) * self.dsub + j0 == cent_start + j0);
                    }
                }
            }
            s = s + 1;
        }
        proof {
            assert(nsub * dsub == self.nsub * self.dsub) by (nonlinear_arith)
                requires
                    nsub == self.nsub && dsub == self.dsub,
            ;
        }
        r
    }

    /// The norm-quantiser component (bit pattern) for `row`, when the
    /// matrix carries one.
    pub fn norm_factor_bits(&self, row: u32) -> (r: Option<u32>)
        requires
            self.wf(),
            row < self.rows,
        ensures
            self.qnorm ==> r == Some(
                self.norm_centroid_bits@[self.norm_codes@[row as int] as int],
            ),
            !self.qnorm ==> r is None,
    {
        if self.qnorm {
            let code = self.norm_codes[row as usize] as usize;
            proof {
                assert(self.norm_codes@[row as int] < 256);
            }
            Some(self.norm_centroid_bits[code])
        } else {
            None
        }
    }
}

/// Index arithmetic for a row's code bytes.
proof fn lemma_qmatrix_bounds(q: &QMatrix, row: int)
    requires
        q.wf(),
        0 <= row < q.rows,
    ensures
        row * q.nsub + q.nsub <= q.codes@.len(),
        0 <= row * q.nsub,
{
    assert(row * q.nsub + q.nsub <= q.rows * q.nsub && 0 <= row * q.nsub) by (nonlinear_arith)
        requires
            0 <= row < q.rows && q.nsub >= 0,
    ;
}

/// Index arithmetic for one sub-block's centroid slice.
proof fn lemma_row_code_bound(q: &QMatrix, row: int, s: int)
    requires
        q.wf(),
        0 <= row < q.rows,
        0 <= s < q.nsub,
    ensures
        0 <= row * q.nsub + s < q.codes@.len(),
        (s * 256 + q.codes@[row * q.nsub + s]) * q.dsub + q.dsub <= q.centroid_bits@.len(),
        0 <= (s * 256 + q.codes@[row * q.nsub + s]) * q.dsub,
{
    assert(0 <= row * q.nsub + s < q.rows * q.nsub) by (nonlinear_arith)
        requires
            0 <= row < q.rows && 0 <= s < q.nsub,
    ;
    let c = q.codes@[row * q.nsub + s] as int;
    assert(0 <= c < 256);
    assert((s * 256 + c) * q.dsub + q.dsub <= q.nsub * 256 * q.dsub && 0 <= (s * 256 + c)
        * q.dsub) by (nonlinear_arith)
        requires
            0 <= s < q.nsub && 0 <= c < 256 && q.dsub >= 0,
    ;
}

// ---------------------------------------------------------------------------
// the byte layout of a model file
// ---------------------------------------------------------------------------

/// The position after one dictionary entry at `p`: a length word, that
/// many bytes, and a count word — when all of it is present.
pub open spec fn dict_entry_end(b: Seq<u8>, p: int) -> Option<int> {
    if p < 0 || p + 4 > b.len() {
        None
    } else if p + 4 + u32_le(b, p) + 8 <= b.len() {
        Some(p + 4 + u32_le(b, p) + 8)
    } else {
        None
    }
}

/// The position after `n` dictionary entries starting at `p`.
pub open spec fn dict_end(b: Seq<u8>, p: int, n: nat) -> Option<int>
    decreases n,
{
    if n == 0 {
        if 0 <= p <= b.len() {
            Some(p)
        } else {
            None
        }
    } else {
        match dict_entry_end(b, p) {
            Some(q) => dict_end(b, q, (n - 1) as nat),
            None => None,
        }
    }
}

/// One more entry extends a successful dictionary traversal.
proof fn lemma_dict_end_snoc(b: Seq<u8>, s: int, n: nat, p: int, q: int)
    requires
        dict_end(b, s, n) == Some(p),
        dict_entry_end(b, p) == Some(q),
    ensures
        dict_end(b, s, (n + 1) as nat) == Some(q),
    decreases n,
{
    if n == 0 {
        assert(p == s);
        assert(0 <= q <= b.len());
        assert((n + 1) as nat == 1nat);
        assert(dict_end(b, q, 0nat) == Some(q));
        assert(dict_end(b, s, 1nat) == dict_end(b, q, 0nat));
    } else {
        let q1 = dict_entry_end(b, s)->0;
        lemma_dict_end_snoc(b, q1, (n - 1) as nat, p, q);
        assert(dict_end(b, s, (n + 1) as nat) == dict_end(b, q1, n));
    }
}

/// A traversal that gets stuck before its count never completes.
proof fn lemma_dict_end_stuck(b: Seq<u8>, s: int, w: nat, n: nat, p: int)
    requires
        dict_end(b, s, w) == Some(p),
        dict_entry_end(b, p) is None,
        w < n,
    ensures
        dict_end(b, s, n) is None,
    decreases w,
{
    if w == 0 {
        assert(p == s);
    } else {
        let q1 = dict_entry_end(b, s)->0;
        lemma_dict_end_stuck(b, q1, (w - 1) as nat, (n - 1) as nat, p);
    }
}

/// The quantised-matrix header fields at `p`.
pub open spec fn qm_qnorm(b: Seq<u8>, p: int) -> bool {
    b[p] != 0
}

/// The row count of the matrix at `p`.
pub open spec fn qm_rows(b: Seq<u8>, p: int) -> int {
    u32_le(b, p + 1)
}

/// The full dimension of the matrix at `p`.
pub open spec fn qm_dim(b: Seq<u8>, p: int) -> int {
    u32_le(b, p + 5)
}

/// The sub-quantiser count of the matrix at `p`.
pub open spec fn qm_nsub(b: Seq<u8>, p: int) -> int {
    u32_le(b, p + 9)
}

/// A readable matrix header whose dimension does not divide into its
/// sub-quantisers.
pub open spec fn qm_header_bad(b: Seq<u8>, p: int) -> bool {
    &&& 0 <= p
    &&& p + 13 <= b.len()
    &&& (qm_nsub(b, p) == 0 || qm_dim(b, p) % qm_nsub(b, p) != 0)
}

/// The position after the quantised matrix at `p`, when its header is
/// sound and its tables are all present.
pub open spec fn qmatrix_end(b: Seq<u8>, p: int) -> Option<int> {
    if p < 0 || p + 13 > b.len() {
        None
    } else if qm_nsub(b, p) == 0 || qm_dim(b, p) % qm_nsub(b, p) != 0 {
        None
    } else {
        let rows = qm_rows(b, p);
        let nsub = qm_nsub(b, p);
        let dsub = qm_dim(b, p) / nsub;
        let body = p + 13 + rows * nsub + 4 * (nsub * 256 * dsub) + if qm_qnorm(b, p) {
            rows + 1024
        } else {
            0int
        };
        if body <= b.len() {
            Some(body)
        } else {
            None
        }
    }
}

/// Where the label entries begin: after the header and the word entries.
pub open spec fn labels_start(b: Seq<u8>) -> int {
    dict_end(b, 80, u32_le(b, 64) as nat)->0
}

/// The raw bytes of the `i`-th label entry after `p1`.
pub open spec fn label_bytes(b: Seq<u8>, p1: int, i: int) -> Seq<u8> {
    let q = dict_end(b, p1, i as nat)->0;
    b.subrange(q + 4, q + 4 + u32_le(b, q))
}

/// A readable header with the right magic and version.
pub open spec fn header_ok(b: Seq<u8>) -> bool {
    &&& b.len() >= 80
    &&& u32_le(b, 0) == FASTTEXT_MAGIC
    &&& u32_le(b, 4) == FASTTEXT_VERSION
}

/// The whole well-formed layout: header, supported settings, both
/// dictionaries and both matrices present, and the cross-checks between
/// them satisfied.
pub open spec fn model_layout_ok(b: Seq<u8>) -> bool {
    &&& header_ok(b)
    &&& u32_le(b, 28) == 1
    &&& u32_le(b, 40) >= 1
    &&& dict_end(b, 80, u32_le(b, 64) as nat) is Some
    &&& {
        let p1 = dict_end(b, 80, u32_le(b, 64) as nat)->0;
        &&& dict_end(b, p1, u32_le(b, 68) as nat) is Some
        &&& {
            let p2 = dict_end(b, p1, u32_le(b, 68) as nat)->0;
            &&& qmatrix_end(b, p2) is Some
            &&& {
                let p3 = qmatrix_end(b, p2)->0;
                &&& qmatrix_end(b, p3) is Some
                &&& qm_dim(b, p2) == u32_le(b, 8)
                &&& qm_dim(b, p3) == u32_le(b, 8)
                &&& qm_rows(b, p3) == u32_le(b, 68)
                &&& qm_rows(b, p2) >= u32_le(b, 64) + u32_le(b, 40) + 1
            }
        }
    }
}

/// The defects answered with `Unsupported`: an unsupported word n-gram
/// setting, a zero bucket, or matrices that disagree with the declared
/// dimension, label count or subword row range.
pub open spec fn unsupported_defect(b: Seq<u8>) -> bool {
    &&& b.len() >= 32
    &&& u32_le(b, 0) == FASTTEXT_MAGIC
    &&& u32_le(b, 4) == FASTTEXT_VERSION
    &&& (u32_le(b, 28) != 1 || (header_ok(b) && u32_le(b, 40) == 0) || header_ok(b) && {
        let d1 = dict_end(b, 80, u32_le(b, 64) as nat);
        &&& d1 is Some
        &&& {
            let d2 = dict_end(b, d1->0, u32_le(b, 68) as nat);
            &&& d2 is Some
            &&& {
                let q1 = qmatrix_end(b, d2->0);
                &&& q1 is Some
                &&& {
                    let q2 = qmatrix_end(b, q1->0);
                    &&& q2 is Some
                    &&& (qm_dim(b, d2->0) != u32_le(b, 8) || qm_dim(b, q1->0) != u32_le(b, 8)
                        || qm_rows(b, q1->0) != u32_le(b, 68) || qm_rows(b, d2->0) < u32_le(
                        b,
                        64,
                    ) + u32_le(b, 40) + 1)
                }
            }
        }
    })
}

/// The defects answered with `BadDims`: a matrix header whose dimension
/// does not divide into its sub-quantisers.
pub open spec fn baddims_defect(b: Seq<u8>) -> bool {
    &&& header_ok(b)
    &&& u32_le(b, 28) == 1
    &&& u32_le(b, 40) >= 1
    &&& {
        let d1 = dict_end(b, 80, u32_le(b, 64) as nat);
        &&& d1 is Some
        &&& {
            let d2 = dict_end(b, d1->0, u32_le(b, 68) as nat);
            &&& d2 is Some
            &&& (qm_header_bad(b, d2->0) || (qmatrix_end(b, d2->0) is Some && qm_header_bad(
                b,
                qmatrix_end(b, d2->0)->0,
            )))
        }
    }
}

/// The bucket row one n-gram selects.
pub open spec fn ngram_row(b: Seq<u8>, i: int, n: int, bucket: u32, nwords: u32) -> int {
    nwords + (fnv1a(b.subrange(i, i + n)) as int) % (bucket as int) + 1
}

/// The rows of all n-grams of length `n` starting at `i` or later.
pub open spec fn ngram_rows_at(b: Seq<u8>, n: int, i: int, bucket: u32, nwords: u32) -> Seq<int>
    decreases b.len() - n - i + 1,
{
    if i < 0 || n < 1 || i > b.len() - n {
        Seq::empty()
    } else {
        seq![ngram_row(b, i, n, bucket, nwords)] + ngram_rows_at(b, n, i + 1, bucket, nwords)
    }
}

/// The rows of all n-grams with lengths from `n` up to
/// `min(maxn, b.len())`, shortest lengths first.
pub open spec fn ngram_rows_from(b: Seq<u8>, n: int, maxn: int, bucket: u32, nwords: u32) -> Seq<
    int,
>
    decreases (if maxn <= b.len() {
        maxn
    } else {
        b.len() as int
    }) + 1 - n,
{
    let hi = if maxn <= b.len() {
        maxn
    } else {
        b.len() as int
    };
    if n > hi {
        Seq::empty()
    } else {
        ngram_rows_at(b, n, 0, bucket, nwords) + ngram_rows_from(b, n + 1, maxn, bucket, nwords)
    }
}

/// All subword rows of a token's bytes.
pub open spec fn ngram_rows_spec(b: Seq<u8>, minn: int, maxn: int, bucket: u32, nwords: u32) -> Seq<
    int,
> {
    ngram_rows_from(b, minn, maxn, bucket, nwords)
}

/// The parsed model: arguments, output labels, and the two quantised
/// matrices (input embeddings and output classifier).
#[derive(Debug)]
pub struct Model {
    pub args: LidArgs,
    pub labels: Vec<String>,
    pub qinput: QMatrix,
    pub qoutput: QMatrix,
}

impl Model {
    /// The layout guarantees `parse` established: both matrices are well
    /// shaped, they agree with the declared dimension, the bucket count is
    /// usable, and every possible subword row index is in range.
    pub open spec fn wf(&self) -> bool {
        &&& self.qinput.wf()
        &&& self.qoutput.wf()
        &&& self.qinput.dim == self.args.dim
        &&& self.qoutput.dim == self.args.dim
        &&& self.args.bucket >= 1
        &&& self.qinput.rows >= self.args.nwords + self.args.bucket + 1
        &&& self.qoutput.rows == self.labels@.len()
    }

    /// Parse a quantised fastText model from its raw bytes.
    ///
    /// Rejects a wrong magic number or version (`BadHeader`), word n-gram
    /// settings other than 1, a zero bucket, a dimension disagreement or a
    /// subword row range beyond the input matrix (`Unsupported`), and a
    /// dimension not divisible by the sub-quantiser count (`BadDims`);
    /// truncated data fails with `Io`.
    pub fn parse(bytes: &[u8]) -> (r: Result<Model, LidError>)
        ensures
            // parsing succeeds exactly on a well-formed layout
            r is Ok <==> model_layout_ok(bytes@),
            r is Ok ==> {
                &&& r->Ok_0.wf()
                &&& bytes@.len() >= 80
                &&& u32_le(bytes@, 0) == FASTTEXT_MAGIC
                &&& u32_le(bytes@, 4) == FASTTEXT_VERSION
                &&& r->Ok_0.args.dim == u32_le(bytes@, 8)
                &&& u32_le(bytes@, 28) == 1
                &&& r->Ok_0.args.bucket == u32_le(bytes@, 40)
                &&& r->Ok_0.args.minn == u32_le(bytes@, 44)
                &&& r->Ok_0.args.maxn == u32_le(bytes@, 48)
                &&& r->Ok_0.args.nwords == u32_le(bytes@, 64)
                &&& r->Ok_0.labels@.len() == u32_le(bytes@, 68)
            },
            // the labels are the lossily decoded label entries, in file
            // order
            r is Ok ==> forall|i: int|
                0 <= i < r->Ok_0.labels@.len() ==> (#[trigger] r->Ok_0.labels@[i])@
                    == utf8_lossy_of(label_bytes(bytes@, labels_start(bytes@), i)),
            // each error kind names its defect
            bytes@.len() >= 8 && (u32_le(bytes@, 0) != FASTTEXT_MAGIC || u32_le(bytes@, 4)
                != FASTTEXT_VERSION) ==> r == Err::<Model, LidError>(LidError::BadHeader),
            r == Err::<Model, LidError>(LidError::BadHeader) ==> bytes@.len() >= 8 && (u32_le(
                bytes@,
                0,
            ) != FASTTEXT_MAGIC || u32_le(bytes@, 4) != FASTTEXT_VERSION),
            r is Err && r->Err_0 is Unsupported ==> unsupported_defect(bytes@),
            r is Err && r->Err_0 is BadDims ==> baddims_defect(bytes@),
            bytes@.len() < 8 ==> r is Err,
    {
        let ghost b = bytes@;
        let mut pos: usize = 0;
        let magic = match take_u32(bytes, &mut pos) {
            Ok(v) => v,
            Err(e) => {
                return Err(e);
            },
        };
        let version = match take_u32(bytes, &mut pos) {
            Ok(v) => v,
            Err(e) => {
                return Err(e);
            },
        };
        if magic != FASTTEXT_MAGIC || version != FASTTEXT_VERSION {
            return Err(LidError::BadHeader);
        }
        let dim = match take_u32(bytes, &mut pos) {
            Ok(v) => v,
            Err(e) => {
                return Err(e);
            },
        };
        // window size, epoch, min_count, neg: present but unused
        match skip_bytes(bytes, &mut pos, 16) {
            Ok(_) => {
            },
            Err(e) => {
                return Err(e);
            },
        }
        let word_ngrams = match take_u32(bytes, &mut pos) {
            Ok(v) => v,
            Err(e) => {
                return Err(e);
            },
        };
        if word_ngrams != 1 {
            return Err(LidError::Unsupported);
        }
        // loss, model: present but unused
        match skip_bytes(bytes, &mut pos, 8) {
            Ok(_) => {
            },
            Err(e) => {
                return Err(e);
            },
        }
        let bucket = match take_u32(bytes, &mut pos) {
            Ok(v) => v,
            Err(e) => {
                return Err(e);
            },
        };
        let minn = match take_u32(bytes, &mut pos) {
            Ok(v) => v,
            Err(e) => {
                return Err(e);
            },
        };
        let maxn = match take_u32(bytes, &mut pos) {
            Ok(v) => v,
            Err(e) => {
                return Err(e);
            },
        };
        // learning-rate update rate and the sampling threshold (f64)
        match skip_bytes(bytes, &mut pos, 12) {
            Ok(_) => {
            },
            Err(e) => {
                return Err(e);
            },
        }
        let nwords = match take_u32(bytes, &mut pos) {
            Ok(v) => v,
            Err(e) => {
                return Err(e);
            },
        };
        let nlabels = match take_u32(bytes, &mut pos) {
            Ok(v) => v,
            Err(e) => {
                return Err(e);
            },
        };
        // total token count
        match skip_bytes(bytes, &mut pos, 8) {
            Ok(_) => {
            },
            Err(e) => {
                return Err(e);
            },
        }
        if bucket == 0 {
            return Err(LidError::Unsupported);
        }
        proof {
            assert(pos == 80);
            assert(dict_end(b, 80, 0nat) == Some(80int));
        }
        // skip the word dictionary entries
        let mut w: u32 = 0;
        while w < nwords
            invariant
                pos <= bytes@.len(),
                b == bytes@,
                w <= nwords,
                bytes@.len() >= 80,
                u32_le(bytes@, 0) == FASTTEXT_MAGIC,
                u32_le(bytes@, 4) == FASTTEXT_VERSION,
                dim == u32_le(bytes@, 8),
                u32_le(bytes@, 28) == 1,
                bucket == u32_le(bytes@, 40),
                minn == u32_le(bytes@, 44),
                maxn == u32_le(bytes@, 48),
                nwords == u32_le(bytes@, 64),
                nlabels == u32_le(bytes@, 68),
                bucket >= 1,
                dict_end(b, 80, w as nat) == Some(pos as int),
            decreases nwords - w,
        {
            let ghost at = pos as int;
            let len = match take_u32(bytes, &mut pos) {
                Ok(v) => v,
                Err(e) => {
                    proof {
                        assert(dict_entry_end(b, at) is None);
                        if dict_end(b, 80, nwords as nat) is Some {
                            lemma_dict_end_stuck(b, 80, w as nat, nwords as nat, at);
                        }
                    }
                    return Err(e);
                },
            };
            match skip_bytes(bytes, &mut pos, len as u64 + 8) {
                Ok(_) => {
                },
                Err(e) => {
                    proof {
                        assert(dict_entry_end(b, at) is None);
                        if dict_end(b, 80, nwords as nat) is Some {
                            lemma_dict_end_stuck(b, 80, w as nat, nwords as nat, at);
                        }
                    }
                    return Err(e);
                },
            }
            proof {
                assert(dict_entry_end(b, at) == Some(pos as int));
                lemma_dict_end_snoc(b, 80, w as nat, at, pos as int);
            }
            w = w + 1;
        }
        let ghost p1 = pos as int;
        proof {
            assert(dict_end(b, 80, nwords as nat) == Some(p1));
            assert(labels_start(b) == p1);
            assert(dict_end(b, p1, 0nat) == Some(p1));
        }
        // read the label entries
        let mut labels: Vec<String> = Vec::new();
        let mut l: u32 = 0;
        while l < nlabels
            invariant
                pos <= bytes@.len(),
                b == bytes@,
                l <= nlabels,
                labels@.len() == l,
                bytes@.len() >= 80,
                u32_le(bytes@, 0) == FASTTEXT_MAGIC,
                u32_le(bytes@, 4) == FASTTEXT_VERSION,
                dim == u32_le(bytes@, 8),
                u32_le(bytes@, 28) == 1,
                bucket == u32_le(bytes@, 40),
                minn == u32_le(bytes@, 44),
                maxn == u32_le(bytes@, 48),
                nwords == u32_le(bytes@, 64),
                nlabels == u32_le(bytes@, 68),
                bucket >= 1,
                dict_end(b, 80, nwords as nat) == Some(p1),
                labels_start(b) == p1,
                dict_end(b, p1, l as nat) == Some(pos as int),
                forall|i: int|
                    0 <= i < l ==> (#[trigger] labels@[i])@ == utf8_lossy_of(
                        label_bytes(b, p1, i),
                    ),
            decreases nlabels - l,
        {
            let ghost at = pos as int;
            let len = match take_u32(bytes, &mut pos) {
                Ok(v) => v,
                Err(e) => {
                    proof {
                        assert(dict_entry_end(b, at) is None);
                        if dict_end(b, p1, nlabels as nat) is Some {
                            lemma_dict_end_stuck(b, p1, l as nat, nlabels as nat, at);
                        }
                    }
                    return Err(e);
                },
            };
            let raw = match take_bytes(bytes, &mut pos, len as u64) {
                Ok(v) => v,
                Err(e) => {
                    proof {
                        assert(dict_entry_end(b, at) is None);
                        if dict_end(b, p1, nlabels as nat) is Some {
                            lemma_dict_end_stuck(b, p1, l as nat, nlabels as nat, at);
                        }
                    }
                    return Err(e);
                },
            };
            labels.push(bytes_to_string_lossy(raw.as_slice()));
            match skip_bytes(bytes, &mut pos, 8) {
                Ok(_) => {
                },
                Err(e) => {
                    proof {
                        assert(dict_entry_end(b, at) is None);
                        if dict_end(b, p1, nlabels as nat) is Some {
                            lemma_dict_end_stuck(b, p1, l as nat, nlabels as nat, at);
                        }
                    }
                    return Err(e);
                },
            }
            proof {
                assert(dict_entry_end(b, at) == Some(pos as int));
                lemma_dict_end_snoc(b, p1, l as nat, at, pos as int);
                assert(label_bytes(b, p1, l as int) =~= raw@);
                assert(labels@.last()@ == utf8_lossy_of(label_bytes(b, p1, l as int)));
            }
            l = l + 1;
        }
        let ghost p2 = pos as int;
        proof {
            assert(dict_end(b, p1, nlabels as nat) == Some(p2));
        }
        let qinput = match Model::read_qmatrix(bytes, &mut pos) {
            Ok(q) => q,
            Err(e) => {
                proof {
                    assert(qmatrix_end(b, p2) is None);
                }
                return Err(e);
            },
        };
        let ghost p3 = pos as int;
        let qoutput = match Model::read_qmatrix(bytes, &mut pos) {
            Ok(q) => q,
            Err(e) => {
                proof {
                    assert(qmatrix_end(b, p2) == Some(p3));
                    assert(qmatrix_end(b, p3) is None);
                }
                return Err(e);
            },
        };
        proof {
            assert(qmatrix_end(b, p2) == Some(p3));
            assert(qinput.dim == qm_dim(b, p2) && qinput.rows == qm_rows(b, p2));
            assert(qoutput.dim == qm_dim(b, p3) && qoutput.rows == qm_rows(b, p3));
        }
        if qinput.dim != dim || qoutput.dim != dim {
            return Err(LidError::Unsupported);
        }
        if qoutput.rows as u64 != nlabels as u64 {
            return Err(LidError::Unsupported);
        }
        if (qinput.rows as u64) < nwords as u64 + bucket as u64 + 1 {
            return Err(LidError::Unsupported);
        }
        proof {
            assert(model_layout_ok(b));
        }
        Ok(
            Model {
                args: LidArgs { dim, bucket, minn, maxn, nwords },
                labels,
                qinput,
                qoutput,
            },
        )
    }

    fn read_qmatrix(bytes: &[u8], pos: &mut usize) -> (r: Result<QMatrix, LidError>)
        requires
            *old(pos) <= bytes@.len(),
        ensures
            *final(pos) <= bytes@.len(),
            r is Ok ==> r->Ok_0.wf(),
            r is Err ==> r->Err_0 is Io || r->Err_0 is BadDims,
            // reading succeeds exactly on a sound, fully present matrix
            qmatrix_end(bytes@, *old(pos) as int) is Some ==> r is Ok,
            r is Ok ==> qmatrix_end(bytes@, *old(pos) as int) == Some(*final(pos) as int)
                && r->Ok_0.qnorm == qm_qnorm(bytes@, *old(pos) as int) && r->Ok_0.rows == qm_rows(
                bytes@,
                *old(pos) as int,
            ) && r->Ok_0.dim == qm_dim(bytes@, *old(pos) as int) && r->Ok_0.nsub == qm_nsub(
                bytes@,
                *old(pos) as int,
            ),
            r is Err && r->Err_0 is BadDims ==> qm_header_bad(bytes@, *old(pos) as int),
    {
        let ghost b = bytes@;
        let ghost p0 = *pos as int;
        let bl = bytes.len();
        let qnorm_b = match take_bytes(bytes, pos, 1) {
            Ok(v) => v,
            Err(e) => {
                proof {
                    assert(qmatrix_end(b, p0) is None);
                }
                return Err(e);
            },
        };
        let qnorm = qnorm_b[0] != 0;
        proof {
            assert(qnorm_b@[0] == b[p0]);
            assert(qnorm == qm_qnorm(b, p0));
        }
        let rows = match take_u32(bytes, pos) {
            Ok(v) => v,
            Err(e) => {
                proof {
                    assert(qmatrix_end(b, p0) is None);
                }
                return Err(e);
            },
        };
        let dim = match take_u32(bytes, pos) {
            Ok(v) => v,
            Err(e) => {
                proof {
                    assert(qmatrix_end(b, p0) is None);
                }
                return Err(e);
            },
        };
        let nsub = match take_u32(bytes, pos) {
            Ok(v) => v,
            Err(e) => {
                proof {
                    assert(qmatrix_end(b, p0) is None);
                }
                return Err(e);
            },
        };
        proof {
            assert(rows == qm_rows(b, p0));
            assert(dim == qm_dim(b, p0));
            assert(nsub == qm_nsub(b, p0));
        }
        if nsub == 0 || dim % nsub != 0 {
            proof {
                assert(qm_header_bad(b, p0));
                assert(qmatrix_end(b, p0) is None);
            }
            return Err(LidError::BadDims);
        }
        let dsub = dim / nsub;
        let ghost cent = nsub as int * 256 * dsub as int;
        let ghost body = p0 + 13 + qm_rows(b, p0) * qm_nsub(b, p0) + 4 * (qm_nsub(b, p0) * 256 * (
        qm_dim(b, p0) / qm_nsub(b, p0))) + if qm_qnorm(b, p0) {
            qm_rows(b, p0) + 1024
        } else {
            0int
        };
        proof {
            assert(cent == qm_nsub(b, p0) * 256 * (qm_dim(b, p0) / qm_nsub(b, p0)));
            assert(body == p0 + 13 + rows as int * nsub as int + 4 * cent + if qnorm {
                rows as int + 1024
            } else {
                0int
            });
        }
        proof {
            assert((rows as u64) * (nsub as u64) <= u64::MAX) by (nonlinear_arith)
                requires
                    rows as u64 <= 0xffffffffu64 && nsub as u64 <= 0xffffffffu64,
            ;
            assert((nsub as u128) * 256 * (dsub as u128) <= u128::MAX) by (nonlinear_arith)
                requires
                    nsub as u128 <= 0xffffffffu128 && dsub as u128 <= 0xffffffffu128,
            ;
            assert(rows as int * nsub as int >= 0 && nsub as int * 256 * dsub as int >= 0)
                by (nonlinear_arith)
                requires
                    rows as int >= 0 && nsub as int >= 0 && dsub as int >= 0,
            ;
        }
        let codes = match take_bytes(bytes, pos, (rows as u64) * (nsub as u64)) {
            Ok(v) => v,
            Err(e) => {
                proof {
                    assert(body > b.len());
                    assert(qmatrix_end(b, p0) is None);
                }
                return Err(e);
            },
        };
        let cent_count128: u128 = (nsub as u128) * 256 * (dsub as u128);
        if cent_count128 > u64::MAX as u128 {
            proof {
                assert(b.len() == bl <= usize::MAX);
                assert(body > b.len());
                assert(qmatrix_end(b, p0) is None);
            }
            return Err(LidError::Io(err_truncated()));
        }
        let cent_count: u64 = cent_count128 as u64;
        let centroid_bits = match take_u32s(bytes, pos, cent_count) {
            Ok(v) => v,
            Err(e) => {
                proof {
                    assert(b.len() == bl <= usize::MAX);
                    if cent_count > u64::MAX / 4 {
                        assert(4 * cent > u64::MAX);
                        assert(body > b.len());
                    } else {
                        assert(body > b.len());
                    }
                    assert(qmatrix_end(b, p0) is None);
                }
                return Err(e);
            },
        };
        let mut norm_codes: Vec<u8> = Vec::new();
        let mut norm_centroid_bits: Vec<u32> = Vec::new();
        if qnorm {
            norm_codes = match take_bytes(bytes, pos, rows as u64) {
                Ok(v) => v,
                Err(e) => {
                    proof {
                        assert(body > b.len());
                        assert(qmatrix_end(b, p0) is None);
                    }
                    return Err(e);
                },
            };
            norm_centroid_bits = match take_u32s(bytes, pos, 256) {
                Ok(v) => v,
                Err(e) => {
                    proof {
                        assert(body > b.len());
                        assert(qmatrix_end(b, p0) is None);
                    }
                    return Err(e);
                },
            };
        }
        proof {
            assert(dim == nsub * (dim / nsub)) by (nonlinear_arith)
                requires
                    nsub >= 1 && dim % nsub == 0 && dim >= 0,
            ;
            assert(*pos == body);
            assert(qmatrix_end(b, p0) == Some(body));
        }
        Ok(
            QMatrix {
                qnorm,
                rows,
                dim,
                nsub,
                dsub,
                codes,
                centroid_bits,
                norm_codes,
                norm_centroid_bits,
            },
        )
    }

    /// The subword embedding rows a token selects, in scan order: for
    /// every byte n-gram of the token with length in
    /// `[minn, min(maxn, len)]`, the bucket row
    /// `nwords + hash mod bucket + 1`.  Every row is in range for the
    /// input matrix.
    pub fn token_rows(&self, token_bytes: &[u8]) -> (r: Vec<u32>)
        requires
            self.wf(),
        ensures
            token_bytes@.len() < u32::MAX ==> {
                &&& r@.len() == ngram_rows_spec(
                    token_bytes@,
                    self.args.minn as int,
                    self.args.maxn as int,
                    self.args.bucket,
                    self.args.nwords,
                ).len()
                &&& forall|k: int|
                    0 <= k < r@.len() ==> #[trigger] r@[k] == ngram_rows_spec(
                        token_bytes@,
                        self.args.minn as int,
                        self.args.maxn as int,
                        self.args.bucket,
                        self.args.nwords,
                    )[k]
            },
            forall|k: int|
                0 <= k < r@.len() ==> self.args.nwords < #[trigger] r@[k] && r@[k]
                    <= self.args.nwords + self.args.bucket && r@[k] < self.qinput.rows,
    {
        let mut r: Vec<u32> = Vec::new();
        let ghost bs = token_bytes@;
        let ghost bucket = self.args.bucket;
        let ghost nwords = self.args.nwords;
        let ghost minn = self.args.minn as int;
        let ghost maxn = self.args.maxn as int;
        let len = token_bytes.len();
        if len >= u32::MAX as usize {
            return r;
        }
        let len32 = len as u32;
        let hi = if self.args.maxn <= len32 {
            self.args.maxn
        } else {
            len32
        };
        proof {
            assert(hi as int == if maxn <= bs.len() {
                maxn
            } else {
                bs.len() as int
            });
        }
        let mut n = self.args.minn;
        while n <= hi
            invariant
                hi <= len32,
                len32 < u32::MAX,
                len32 == bs.len(),
                bs == token_bytes@,
                self.wf(),
                bucket == self.args.bucket,
                nwords == self.args.nwords,
                minn == self.args.minn as int,
                maxn == self.args.maxn as int,
                n >= self.args.minn,
                hi as int == if maxn <= bs.len() {
                    maxn
                } else {
                    bs.len() as int
                },
                ngram_rows_spec(bs, minn, maxn, bucket, nwords) =~= r@.map_values(
                    |x: u32| x as int,
                ) + ngram_rows_from(bs, n as int, maxn, bucket, nwords),
                forall|k: int|
                    0 <= k < r@.len() ==> self.args.nwords < #[trigger] r@[k] && r@[k]
                        <= self.args.nwords + self.args.bucket && r@[k] < self.qinput.rows,
            decreases hi + 1 - n,
        {
            if n >= 1 {
                proof {
                    assert(ngram_rows_from(bs, n as int, maxn, bucket, nwords)
                        =~= ngram_rows_at(bs, n as int, 0, bucket, nwords) + ngram_rows_from(
                        bs,
                        n as int + 1,
                        maxn,
                        bucket,
                        nwords,
                    ));
                }
                let mut i: u32 = 0;
                while i <= len32 - n
                    invariant
                        1 <= n <= hi <= len32,
                        len32 < u32::MAX,
                        len32 == bs.len(),
                        bs == token_bytes@,
                        self.wf(),
                        bucket == self.args.bucket,
                        nwords == self.args.nwords,
                        minn == self.args.minn as int,
                        maxn == self.args.maxn as int,
                        i <= len32 - n + 1,
                        ngram_rows_spec(bs, minn, maxn, bucket, nwords) =~= r@.map_values(
                            |x: u32| x as int,
                        ) + ngram_rows_at(bs, n as int, i as int, bucket, nwords)
                            + ngram_rows_from(bs, n as int + 1, maxn, bucket, nwords),
                        forall|k: int|
                            0 <= k < r@.len() ==> self.args.nwords < #[trigger] r@[k] && r@[k]
                                <= self.args.nwords + self.args.bucket && r@[k]
                                < self.qinput.rows,
                    decreases len32 - n - i + 1,
                {
                    let ngram = slice_range(token_bytes, i as usize, (i + n) as usize);
                    let h = hash_ngram(ngram.as_slice()) % self.args.bucket;
                    proof {
                        assert(h < self.args.bucket);
                    }
                    let row = self.args.nwords + h + 1;
                    proof {
                        assert(row as int == ngram_row(bs, i as int, n as int, bucket, nwords));
                        assert(ngram_rows_at(bs, n as int, i as int, bucket, nwords) =~= seq![
                            ngram_row(bs, i as int, n as int, bucket, nwords),
                        ] + ngram_rows_at(bs, n as int, i as int + 1, bucket, nwords));
                    }
                    let ghost old_r = r@;
                    r.push(row);
                    proof {
                        assert(r@.map_values(|x: u32| x as int) =~= old_r.map_values(
                            |x: u32| x as int,
                        ) + seq![row as int]);
                    }
                    i = i + 1;
                }
                proof {
                    assert(ngram_rows_at(bs, n as int, len32 - n + 1, bucket, nwords)
                        =~= Seq::<int>::empty());
                }
            } else {
                proof {
                    assert(ngram_rows_at(bs, n as int, 0, bucket, nwords)
                        =~= Seq::<int>::empty());
                    assert(ngram_rows_from(bs, n as int, maxn, bucket, nwords)
                        =~= ngram_rows_from(bs, n as int + 1, maxn, bucket, nwords));
                }
            }
            n = n + 1;
        }
        proof {
            assert(ngram_rows_from(bs, n as int, maxn, bucket, nwords) =~= Seq::<int>::empty());
            assert(ngram_rows_spec(bs, minn, maxn, bucket, nwords) =~= r@.map_values(
                |x: u32| x as int,
            ));
            assert forall|k: int|
                0 <= k < r@.len() implies #[trigger] r@[k] == ngram_rows_spec(
                bs,
                minn,
                maxn,
                bucket,
                nwords,
            )[k] by {
                assert(r@.map_values(|x: u32| x as int)[k] == r@[k] as int);
            }
        }
        r
    }
}

/// Copy a byte range out of a slice.
fn slice_range(bytes: &[u8], from: usize, to: usize) -> (r: Vec<u8>)
    requires
        from <= to <= bytes@.len(),
    ensures
        r@ == bytes@.subrange(from as int, to as int),
{
    let mut r: Vec<u8> = Vec::new();
    let mut i: usize = from;
    while i < to
        invariant
            from <= i <= to <= bytes@.len(),
            r@ =~= bytes@.subrange(from as int, i as int),
        decreases to - i,
    {
        r.push(bytes[i]);
        proof {
            assert(r@ =~= bytes@.subrange(from as int, i + 1));
        }
        i = i + 1;
    }
    r
}

} // verus!

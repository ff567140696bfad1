//! The text processing pipeline: whitespace split, trimming of
//! non-alphanumeric edges, lowercasing, length and stop-word filters, and
//! stemming.
//!
//! Unicode case folding, the Snowball stemmer and the character classes
//! come from outside (std and the stemming / stop-word crates) and are
//! named rather than restated: `lower_of`, `stem_of`, `is_alnum_char` and
//! `is_space_char` stand for what those calls return.  Everything the
//! pipeline does *with* those results — which words survive, in what order,
//! at which positions — is specified exactly and verified.

use vstd::prelude::*;
use vstd::string::StrSliceExecFns;
use vstd::utf8::encode_utf8;

verus! {

/// What `str::to_lowercase` returns for a string with these characters.
pub uninterp spec fn lower_of(s: Seq<char>) -> Seq<char>;

/// What the Snowball English stemmer returns for a word with these
/// characters.
pub uninterp spec fn stem_of(s: Seq<char>) -> Seq<char>;

/// Whether `char::is_alphanumeric` holds of this character.
pub uninterp spec fn is_alnum_char(c: char) -> bool;

/// Whether `char::is_whitespace` holds of this character.
pub uninterp spec fn is_space_char(c: char) -> bool;

/// Relies on `str::to_lowercase`: the result depends on the characters
/// alone, and an empty string stays empty.
#[verifier::external_body]
pub(crate) fn lowercase(s: &str) -> (r: String)
    ensures
        r@ == lower_of(s@),
        s@.len() == 0 ==> r@.len() == 0,
{
    s.to_lowercase()
}

/// Relies on `rust_stemmers`: the Snowball English stem of a word is a
/// function of the word alone.
#[verifier::external_body]
fn stem_english(word: &str) -> (r: String)
    ensures
        r@ == stem_of(word@),
{
    rust_stemmers::Stemmer::create(rust_stemmers::Algorithm::English).stem(word).into_owned()
}

/// Relies on `char::is_alphanumeric`: a fixed Unicode character class.
/// ASCII letters and digits are alphanumeric; the other ASCII characters
/// are not.
#[verifier::external_body]
pub(crate) fn char_is_alphanumeric(c: char) -> (r: bool)
    ensures
        r == is_alnum_char(c),
        ('a' <= c && c <= 'z') || ('A' <= c && c <= 'Z') || ('0' <= c && c <= '9') ==> r,
        c < 128 as char && !(('a' <= c && c <= 'z') || ('A' <= c && c <= 'Z') || ('0' <= c && c
            <= '9')) ==> !r,
{
    c.is_alphanumeric()
}

/// Relies on `char::is_whitespace`: a fixed Unicode character class.
/// Blank, tab, newline and carriage return are whitespace; ASCII letters
/// and digits are not.
#[verifier::external_body]
fn char_is_whitespace(c: char) -> (r: bool)
    ensures
        r == is_space_char(c),
        c == ' ' || c == '\t' || c == '\n' || c == '\r' ==> r,
        ('a' <= c && c <= 'z') || ('A' <= c && c <= 'Z') || ('0' <= c && c <= '9') ==> !r,
{
    c.is_whitespace()
}

/// Relies on `String::push`: appends exactly the one character.
#[verifier::external_body]
pub(crate) fn push_char(s: &mut String, c: char)
    ensures
        final(s)@ == old(s)@.push(c),
{
    s.push(c)
}

/// Relies on `stop_words::get` for English: a fixed list of words.  The
/// pipeline's contracts are stated over whatever list this returns.
#[verifier::external_body]
fn english_stop_words() -> Vec<String> {
    stop_words::get("en").iter().map(|w| (*w).to_string()).collect()
}

/// The characters of a string, one element each.
pub fn str_chars(s: &str) -> (r: Vec<char>)
    ensures
        r@ == s@,
{
    let n = s.unicode_len();
    let mut r: Vec<char> = Vec::new();
    let mut i: usize = 0;
    while i < n
        invariant
            i <= n,
            n == s@.len(),
            r@ =~= s@.take(i as int),
        decreases n - i,
    {
        r.push(s.get_char(i));
        proof {
            assert(r@ =~= s@.take(i + 1));
        }
        i = i + 1;
    }
    proof {
        assert(s@.take(n as int) =~= s@);
    }
    r
}

// ---------------------------------------------------------------------------
// the specification of the pipeline
// ---------------------------------------------------------------------------

/// The whitespace-separated words of `s` from position `i` on.
pub open spec fn split_ws_from(s: Seq<char>, i: int) -> Seq<Seq<char>>
    decreases s.len() - i,
{
    if i < 0 || i >= s.len() {
        Seq::empty()
    } else {
        let rest = split_ws_from(s, i + 1);
        if is_space_char(s[i]) {
            rest
        } else {
            if i + 1 < s.len() && !is_space_char(s[i + 1]) {
                rest.update(0, seq![s[i]] + rest[0])
            } else {
                seq![seq![s[i]]] + rest
            }
        }
    }
}

/// The whitespace-separated words of `s`, in order.
pub open spec fn split_ws(s: Seq<char>) -> Seq<Seq<char>> {
    split_ws_from(s, 0)
}

/// Drop leading non-alphanumeric characters.
pub open spec fn trim_front(w: Seq<char>) -> Seq<char>
    decreases w.len(),
{
    if w.len() == 0 {
        w
    } else if is_alnum_char(w[0]) {
        w
    } else {
        trim_front(w.drop_first())
    }
}

/// Drop trailing non-alphanumeric characters.
pub open spec fn trim_back(w: Seq<char>) -> Seq<char>
    decreases w.len(),
{
    if w.len() == 0 {
        w
    } else if is_alnum_char(w.last()) {
        w
    } else {
        trim_back(w.drop_last())
    }
}

/// The cleaned form of a word: non-alphanumeric edges trimmed, then
/// lowercased.
pub open spec fn clean_of(w: Seq<char>) -> Seq<char> {
    lower_of(trim_back(trim_front(w)))
}

/// Tokenizer configuration.
#[derive(Debug, Clone, Copy, PartialEq, Eq, Structural)]
pub struct TokenizerConfig {
    pub language: crate::kind::Language,
    pub stop_words_enabled: bool,
    pub stemming_enabled: bool,
    pub min_token_length: usize,
    pub max_token_length: usize,
}

impl Default for TokenizerConfig {
    /// English, both filters on, token byte lengths 2 to 50.
    fn default() -> (r: TokenizerConfig)
        ensures
            r == TokenizerConfig::spec_default(),
    {
        TokenizerConfig {
            language: crate::kind::Language::English,
            stop_words_enabled: true,
            stemming_enabled: true,
            min_token_length: 2,
            max_token_length: 50,
        }
    }
}

impl TokenizerConfig {
    /// What `Default::default` returns.
    pub open spec fn spec_default() -> TokenizerConfig {
        TokenizerConfig {
            language: crate::kind::Language::English,
            stop_words_enabled: true,
            stemming_enabled: true,
            min_token_length: 2,
            max_token_length: 50,
        }
    }
}

/// The UTF-8 byte length of a cleaned word, as `str::len` reports it.
pub open spec fn token_byte_len(clean: Seq<char>) -> usize {
    encode_utf8(clean).len() as usize
}

/// Whether a cleaned word survives the length and stop-word filters.
pub open spec fn keep_token(clean: Seq<char>, cfg: TokenizerConfig, stops: Seq<Seq<char>>) -> bool {
    &&& token_byte_len(clean) >= cfg.min_token_length
    &&& token_byte_len(clean) <= cfg.max_token_length
    &&& !(cfg.stop_words_enabled && stops.contains(clean))
}

/// The stem attached to a kept token.
pub open spec fn spec_stem(clean: Seq<char>, cfg: TokenizerConfig) -> Option<Seq<char>> {
    if cfg.stemming_enabled {
        Some(stem_of(clean))
    } else {
        None
    }
}

/// One produced token: surface form, word position, optional stem.
pub type TokenView = (Seq<char>, int, Option<Seq<char>>);

/// The tokens produced from `words`, whose first word sits at position
/// `base`.
pub open spec fn tokens_from(
    words: Seq<Seq<char>>,
    base: int,
    cfg: TokenizerConfig,
    stops: Seq<Seq<char>>,
) -> Seq<TokenView>
    decreases words.len(),
{
    if words.len() == 0 {
        Seq::empty()
    } else {
        let clean = clean_of(words[0]);
        let rest = tokens_from(words.drop_first(), base + 1, cfg, stops);
        if keep_token(clean, cfg, stops) {
            seq![(clean, base, spec_stem(clean, cfg))] + rest
        } else {
            rest
        }
    }
}

/// The tokens the pipeline produces for `s`.
pub open spec fn tokens_of(s: Seq<char>, cfg: TokenizerConfig, stops: Seq<Seq<char>>) -> Seq<
    TokenView,
> {
    tokens_from(split_ws(s), 0, cfg, stops)
}

// ---------------------------------------------------------------------------
// characterization lemmas used by the implementation
// ---------------------------------------------------------------------------

/// Collecting a maximal non-space run `[i, j)` yields one word.
proof fn lemma_word_collect(s: Seq<char>, i: int, j: int)
    requires
        0 <= i < j <= s.len(),
        forall|m: int| i <= m < j ==> !is_space_char(#[trigger] s[m]),
        j == s.len() || is_space_char(s[j]),
    ensures
        split_ws_from(s, i) =~= seq![s.subrange(i, j)] + split_ws_from(s, j),
    decreases j - i,
{
    if i + 1 == j {
        assert(s.subrange(i, j) =~= seq![s[i]]);
    } else {
        lemma_word_collect(s, i + 1, j);
        let rest = split_ws_from(s, i + 1);
        assert(rest[0] == s.subrange(i + 1, j));
        assert(seq![s[i]] + s.subrange(i + 1, j) =~= s.subrange(i, j));
        assert(split_ws_from(s, i) =~= rest.update(0, seq![s[i]] + rest[0]));
        assert(rest.update(0, s.subrange(i, j)) =~= seq![s.subrange(i, j)] + split_ws_from(s, j));
    }
}

/// Leading non-alphanumeric characters up to `a` are what `trim_front`
/// drops.
proof fn lemma_trim_front(w: Seq<char>, a: int)
    requires
        0 <= a <= w.len(),
        forall|m: int| 0 <= m < a ==> !is_alnum_char(#[trigger] w[m]),
        a < w.len() ==> is_alnum_char(w[a]),
    ensures
        trim_front(w) =~= w.skip(a),
    decreases a,
{
    if a == 0 {
        if w.len() > 0 {
            assert(w.skip(0) =~= w);
        } else {
            assert(w.skip(0) =~= w);
        }
    } else {
        assert(!is_alnum_char(w[0]));
        lemma_trim_front(w.drop_first(), a - 1);
        assert(w.drop_first().skip(a - 1) =~= w.skip(a));
    }
}

/// Trailing non-alphanumeric characters from `b` on are what `trim_back`
/// drops.
proof fn lemma_trim_back(w: Seq<char>, b: int)
    requires
        0 <= b <= w.len(),
        forall|m: int| b <= m < w.len() ==> !is_alnum_char(#[trigger] w[m]),
        b > 0 ==> is_alnum_char(w[b - 1]),
    ensures
        trim_back(w) =~= w.take(b),
    decreases w.len() - b,
{
    if b == w.len() {
        if b == 0 {
            assert(w.take(0) =~= w);
        } else {
            assert(w.take(b) =~= w);
        }
    } else {
        assert(!is_alnum_char(w.last()));
        lemma_trim_back(w.drop_last(), b);
        assert(w.drop_last().take(b) =~= w.take(b));
    }
}

// ---------------------------------------------------------------------------
// executable pipeline
// ---------------------------------------------------------------------------

/// A token: the cleaned surface form, its word position in the input, and
/// its stem when stemming is on.
#[derive(Debug, Clone, PartialEq)]
pub struct Token {
    pub text: String,
    pub position: usize,
    pub stemmed: Option<String>,
}

impl Token {
    /// The mathematical content of this token.
    pub open spec fn view_of(self) -> TokenView {
        (
            self.text@,
            self.position as int,
            match self.stemmed {
                Some(s) => Some(s@),
                None => None,
            },
        )
    }
}

/// The views of a token vector.
pub open spec fn tokens_view(ts: Seq<Token>) -> Seq<TokenView> {
    ts.map_values(|t: Token| t.view_of())
}

/// Trim non-alphanumeric characters from both edges of a word.
fn trim_word(w: &Vec<char>) -> (r: Vec<char>)
    ensures
        r@ =~= trim_back(trim_front(w@)),
{
    let n = w.len();
    let mut a: usize = 0;
    while a < n && !char_is_alphanumeric(w[a])
        invariant
            a <= n,
            n == w@.len(),
            forall|m: int| 0 <= m < a ==> !is_alnum_char(#[trigger] w@[m]),
        decreases n - a,
    {
        a = a + 1;
    }
    proof {
        lemma_trim_front(w@, a as int);
    }
    // w@.skip(a) is the front-trimmed word
    let mut b: usize = n;
    while b > a && !char_is_alphanumeric(w[b - 1])
        invariant
            a <= b <= n,
            n == w@.len(),
            forall|m: int| b <= m < n ==> !is_alnum_char(#[trigger] w@[m]),
        decreases b,
    {
        b = b - 1;
    }
    proof {
        let t = w@.skip(a as int);
        assert forall|m: int| b - a <= m < t.len() implies !is_alnum_char(#[trigger] t[m]) by {
            assert(t[m] == w@[m + a]);
        }
        if b > a {
            assert(t[b - a - 1] == w@[b - 1]);
        }
        lemma_trim_back(t, b - a);
    }
    let mut r: Vec<char> = Vec::new();
    let mut m: usize = a;
    while m < b
        invariant
            a <= m <= b <= n,
            n == w@.len(),
            r@ =~= w@.subrange(a as int, m as int),
        decreases b - m,
    {
        r.push(w[m]);
        proof {
            assert(r@ =~= w@.subrange(a as int, m + 1));
        }
        m = m + 1;
    }
    proof {
        assert(w@.skip(a as int).take(b - a) =~= w@.subrange(a as int, b as int));
    }
    r
}

/// Build a `String` from characters.
fn chars_to_string(w: &Vec<char>) -> (r: String)
    ensures
        r@ =~= w@,
{
    let mut s = String::new();
    let mut i: usize = 0;
    while i < w.len()
        invariant
            i <= w@.len(),
            s@ =~= w@.take(i as int),
        decreases w@.len() - i,
    {
        push_char(&mut s, w[i]);
        proof {
            assert(s@ =~= w@.take(i + 1));
        }
        i = i + 1;
    }
    proof {
        assert(w@.take(w@.len() as int) =~= w@);
    }
    s
}

/// Whether `x` occurs in `list`.
fn contains_string(list: &Vec<String>, x: &String) -> (r: bool)
    ensures
        r == list@.map_values(|s: String| s@).contains(x@),
{
    let ghost views = list@.map_values(|s: String| s@);
    let mut i: usize = 0;
    while i < list.len()
        invariant
            i <= list@.len(),
            views == list@.map_values(|s: String| s@),
            forall|m: int| 0 <= m < i ==> views[m] != x@,
        decreases list@.len() - i,
    {
        if list[i].eq(x) {
            proof {
                assert(views[i as int] == x@);
            }
            return true;
        }
        i = i + 1;
    }
    proof {
        assert forall|m: int| 0 <= m < views.len() implies views[m] != x@ by {}
    }
    false
}

/// The text processor: configuration plus the resolved stop-word list.
#[derive(Debug)]
pub struct TextProcessor {
    pub config: TokenizerConfig,
    pub stop_words: Vec<String>,
}

impl TextProcessor {
    /// The stop-word list as character sequences.
    pub open spec fn stop_list(&self) -> Seq<Seq<char>> {
        self.stop_words@.map_values(|s: String| s@)
    }

    /// A processor with the default configuration.
    pub fn new() -> (r: TextProcessor)
        ensures
            r.config == TokenizerConfig::spec_default(),
    {
        TextProcessor::with_config(TokenizerConfig::default())
    }

    /// A processor with the given configuration.  The stop-word list is
    /// loaded only when the stop-word filter is on.
    pub fn with_config(config: TokenizerConfig) -> (r: TextProcessor)
        ensures
            r.config == config,
            !config.stop_words_enabled ==> r.stop_list() == Seq::<Seq<char>>::empty(),
    {
        let stop_words = if config.stop_words_enabled {
            english_stop_words()
        } else {
            Vec::new()
        };
        let r = TextProcessor { config, stop_words };
        proof {
            if !config.stop_words_enabled {
                assert(r.stop_list() =~= Seq::<Seq<char>>::empty());
            }
        }
        r
    }

    /// Run the pipeline: split on whitespace, clean each word, filter by
    /// length and stop words, attach stems.  The result is exactly
    /// `tokens_of` the input.
    pub fn process_text(&self, text: &str) -> (r: Vec<Token>)
        ensures
            tokens_view(r@) =~= tokens_of(text@, self.config, self.stop_list()),
    {
        let chars = str_chars(text);
        let n = chars.len();
        // phase 1: split into whitespace-separated words
        let mut words: Vec<Vec<char>> = Vec::new();
        let mut i: usize = 0;
        while i < n
            invariant
                i <= n,
                n == chars@.len(),
                chars@ == text@,
                split_ws(text@) =~= words@.map_values(|w: Vec<char>| w@) + split_ws_from(
                    text@,
                    i as int,
                ),
            decreases n - i,
        {
            if char_is_whitespace(chars[i]) {
                i = i + 1;
            } else {
                let start = i;
                let mut w: Vec<char> = Vec::new();
                w.push(chars[i]);
                i = i + 1;
                while i < n && !char_is_whitespace(chars[i])
                    invariant
                        start < i <= n,
                        n == chars@.len(),
                        chars@ == text@,
                        w@ =~= text@.subrange(start as int, i as int),
                        forall|m: int|
                            start <= m < i ==> !is_space_char(#[trigger] text@[m]),
                    decreases n - i,
                {
                    w.push(chars[i]);
                    proof {
                        assert(w@ =~= text@.subrange(start as int, i + 1));
                    }
                    i = i + 1;
                }
                proof {
                    lemma_word_collect(text@, start as int, i as int);
                }
                let ghost old_words = words@;
                words.push(w);
                proof {
                    assert(words@.map_values(|w: Vec<char>| w@) =~= old_words.map_values(
                        |w: Vec<char>| w@,
                    ).push(w@));
                    assert((old_words.map_values(|w: Vec<char>| w@) + seq![w@])
                        + split_ws_from(text@, i as int) =~= old_words.map_values(
                        |w: Vec<char>| w@,
                    ) + (seq![w@] + split_ws_from(text@, i as int)));
                    assert(old_words.map_values(|w: Vec<char>| w@).push(w@) =~= old_words
                        .map_values(|w: Vec<char>| w@) + seq![w@]);
                }
            }
        }
        let ghost word_views = words@.map_values(|w: Vec<char>| w@);
        proof {
            assert(split_ws_from(text@, n as int) =~= Seq::<Seq<char>>::empty());
            assert(split_ws(text@) =~= word_views);
        }
        // phase 2: clean, filter, stem
        let cfg = self.config;
        let mut tokens: Vec<Token> = Vec::new();
        let mut p: usize = 0;
        proof {
            assert(word_views.skip(0) =~= word_views);
        }
        while p < words.len()
            invariant
                p <= words@.len(),
                word_views == words@.map_values(|w: Vec<char>| w@),
                cfg == self.config,
                tokens_from(word_views, 0, cfg, self.stop_list()) =~= tokens_view(tokens@)
                    + tokens_from(word_views.skip(p as int), p as int, cfg, self.stop_list()),
            decreases words@.len() - p,
        {
            let ghost stops = self.stop_list();
            let ghost pending = word_views.skip(p as int);
            proof {
                assert(pending[0] == word_views[p as int]);
                assert(pending.drop_first() =~= word_views.skip(p + 1));
            }
            let trimmed = trim_word(&words[p]);
            let tstr = chars_to_string(&trimmed);
            let clean = lowercase(tstr.as_str());
            proof {
                assert(clean@ == clean_of(word_views[p as int]));
            }
            let blen = clean.as_str().len();
            let keep = blen >= cfg.min_token_length && blen <= cfg.max_token_length && !(
            cfg.stop_words_enabled && contains_string(&self.stop_words, &clean));
            let ghost old_tokens = tokens@;
            if keep {
                let stemmed = if cfg.stemming_enabled {
                    Some(stem_english(clean.as_str()))
                } else {
                    None
                };
                let t = Token { text: clean, position: p, stemmed };
                proof {
                    assert(t.view_of() == (
                        clean_of(word_views[p as int]),
                        p as int,
                        spec_stem(clean_of(word_views[p as int]), cfg),
                    ));
                }
                tokens.push(t);
                proof {
                    let clean0 = clean_of(pending[0]);
                    assert(keep_token(clean0, cfg, stops));
                    assert(tokens_from(pending, p as int, cfg, stops) =~= seq![
                        (clean0, p as int, spec_stem(clean0, cfg)),
                    ] + tokens_from(word_views.skip(p + 1), p + 1, cfg, stops));
                    assert(tokens_view(tokens@) =~= tokens_view(old_tokens).push(
                        tokens@.last().view_of(),
                    ));
                    assert(tokens@.last().view_of() == (clean0, p as int, spec_stem(clean0, cfg)));
                    assert(tokens_view(old_tokens) + tokens_from(pending, p as int, cfg, stops)
                        =~= tokens_view(tokens@) + tokens_from(
                        word_views.skip(p + 1),
                        p + 1,
                        cfg,
                        stops,
                    ));
                }
            } else {
                proof {
                    assert(tokens_from(pending, p as int, cfg, stops) =~= tokens_from(
                        word_views.skip(p + 1),
                        p + 1,
                        cfg,
                        stops,
                    ));
                }
            }
            p = p + 1;
        }
        proof {
            assert(word_views.skip(words@.len() as int) =~= Seq::<Seq<char>>::empty());
        }
        tokens
    }
}

/// Words joined with single blanks.
pub open spec fn join_space(ws: Seq<Seq<char>>) -> Seq<char>
    decreases ws.len(),
{
    if ws.len() == 0 {
        Seq::empty()
    } else if ws.len() == 1 {
        ws[0]
    } else {
        join_space(ws.drop_last()) + seq![' '] + ws.last()
    }
}

/// Token positions never fall below the base word position.
proof fn lemma_tokens_from_pos_lb(
    words: Seq<Seq<char>>,
    base: int,
    cfg: TokenizerConfig,
    stops: Seq<Seq<char>>,
)
    ensures
        forall|i: int|
            0 <= i < tokens_from(words, base, cfg, stops).len() ==> (#[trigger] tokens_from(
                words,
                base,
                cfg,
                stops,
            )[i]).1 >= base,
    decreases words.len(),
{
    if words.len() > 0 {
        lemma_tokens_from_pos_lb(words.drop_first(), base + 1, cfg, stops);
        let rest = tokens_from(words.drop_first(), base + 1, cfg, stops);
        let whole = tokens_from(words, base, cfg, stops);
        assert forall|i: int| 0 <= i < whole.len() implies (#[trigger] whole[i]).1 >= base by {
            if keep_token(clean_of(words[0]), cfg, stops) {
                if i > 0 {
                    assert(whole[i] == rest[i - 1]);
                }
            } else {
                assert(whole[i] == rest[i]);
            }
        }
    }
}

/// Token positions are strictly increasing along the token list.
pub proof fn lemma_tokens_positions_increasing(
    s: Seq<char>,
    cfg: TokenizerConfig,
    stops: Seq<Seq<char>>,
)
    ensures
        forall|i: int, j: int|
            0 <= i < j < tokens_of(s, cfg, stops).len() ==> (#[trigger] tokens_of(
                s,
                cfg,
                stops,
            )[i]).1 < (#[trigger] tokens_of(s, cfg, stops)[j]).1,
{
    lemma_tokens_from_pos_inc(split_ws(s), 0, cfg, stops);
}

/// Token positions are strictly increasing from any base.
proof fn lemma_tokens_from_pos_inc(
    words: Seq<Seq<char>>,
    base: int,
    cfg: TokenizerConfig,
    stops: Seq<Seq<char>>,
)
    ensures
        forall|i: int, j: int|
            0 <= i < j < tokens_from(words, base, cfg, stops).len() ==> (#[trigger] tokens_from(
                words,
                base,
                cfg,
                stops,
            )[i]).1 < (#[trigger] tokens_from(words, base, cfg, stops)[j]).1,
    decreases words.len(),
{
    if words.len() > 0 {
        lemma_tokens_from_pos_inc(words.drop_first(), base + 1, cfg, stops);
        lemma_tokens_from_pos_lb(words.drop_first(), base + 1, cfg, stops);
        let rest = tokens_from(words.drop_first(), base + 1, cfg, stops);
        let whole = tokens_from(words, base, cfg, stops);
        assert forall|i: int, j: int|
            0 <= i < j < whole.len() implies (#[trigger] whole[i]).1 < (
        #[trigger] whole[j]).1 by {
            if keep_token(clean_of(words[0]), cfg, stops) {
                assert(whole[j] == rest[j - 1]);
                if i == 0 {
                    assert(whole[0].1 == base);
                    assert(rest[j - 1].1 >= base + 1);
                } else {
                    assert(whole[i] == rest[i - 1]);
                }
            } else {
                assert(whole[i] == rest[i]);
                assert(whole[j] == rest[j]);
            }
        }
    }
}

/// Splitting only reads the suffix.
proof fn lemma_split_suffix(s: Seq<char>, i: int)
    requires
        0 <= i <= s.len(),
    ensures
        split_ws_from(s, i) == split_ws_from(s.skip(i), 0),
    decreases s.len() - i,
{
    let t = s.skip(i);
    if i == s.len() {
        assert(t.len() == 0);
    } else {
        assert(t[0] == s[i]);
        lemma_split_suffix(s, i + 1);
        lemma_split_suffix(t, 1);
        assert(t.skip(1) =~= s.skip(i + 1));
        if is_space_char(s[i]) {
        } else {
            if i + 1 < s.len() {
                assert(t[1] == s[i + 1]);
            }
        }
    }
}

/// Joining reads off the first word.
proof fn lemma_join_front(ws: Seq<Seq<char>>)
    requires
        ws.len() >= 2,
    ensures
        join_space(ws) =~= ws[0] + seq![' '] + join_space(ws.drop_first()),
    decreases ws.len(),
{
    if ws.len() == 2 {
        assert(ws.drop_last() =~= seq![ws[0]]);
        assert(ws.drop_first() =~= seq![ws[1]]);
        assert(join_space(ws.drop_last()) == ws[0]);
        assert(join_space(ws.drop_first()) == ws[1]);
    } else {
        lemma_join_front(ws.drop_last());
        assert(ws.drop_last()[0] == ws[0]);
        assert(ws.drop_last().drop_first() =~= ws.drop_first().drop_last());
        assert(ws.drop_first().last() == ws.last());
        assert(join_space(ws.drop_first()) =~= join_space(ws.drop_first().drop_last())
            + seq![' '] + ws.last());
        assert(join_space(ws) =~= join_space(ws.drop_last()) + seq![' '] + ws.last());
    }
}

/// Splitting a blank-joined list of non-empty, blank-free words gives the
/// words back.
proof fn lemma_split_join(ws: Seq<Seq<char>>)
    requires
        is_space_char(' '),
        forall|i: int| 0 <= i < ws.len() ==> (#[trigger] ws[i]).len() >= 1,
        forall|i: int, m: int|
            0 <= i < ws.len() && 0 <= m < ws[i].len() ==> !is_space_char(#[trigger] ws[i][m]),
    ensures
        split_ws(join_space(ws)) =~= ws,
    decreases ws.len(),
{
    let s = join_space(ws);
    if ws.len() == 0 {
    } else if ws.len() == 1 {
        assert(s == ws[0]);
        assert forall|m: int| 0 <= m < s.len() implies !is_space_char(#[trigger] s[m]) by {
            assert(s[m] == ws[0][m]);
        }
        lemma_word_collect(s, 0, s.len() as int);
        assert(s.subrange(0, s.len() as int) =~= s);
        assert(split_ws_from(s, s.len() as int) =~= Seq::<Seq<char>>::empty());
        assert(split_ws(s) =~= seq![ws[0]]);
    } else {
        lemma_join_front(ws);
        let w0 = ws[0];
        let rest = ws.drop_first();
        let t = join_space(rest);
        assert(s =~= w0 + seq![' '] + t);
        let l0 = w0.len() as int;
        assert forall|m: int| 0 <= m < l0 implies !is_space_char(#[trigger] s[m]) by {
            assert(s[m] == w0[m]);
        }
        assert(s[l0] == ' ');
        lemma_word_collect(s, 0, l0);
        assert(s.subrange(0, l0) =~= w0);
        // the blank after the first word is skipped
        assert(split_ws_from(s, l0) == split_ws_from(s, l0 + 1));
        lemma_split_suffix(s, l0 + 1);
        assert(s.skip(l0 + 1) =~= t);
        assert forall|i: int| 0 <= i < rest.len() implies (#[trigger] rest[i]).len() >= 1 by {
            assert(rest[i] == ws[i + 1]);
        }
        assert forall|i: int, m: int|
            0 <= i < rest.len() && 0 <= m < rest[i].len() implies !is_space_char(
            #[trigger] rest[i][m],
        ) by {
            assert(rest[i] == ws[i + 1]);
        }
        lemma_split_join(rest);
        assert(split_ws(s) =~= seq![w0] + split_ws_from(t, 0));
        assert(seq![w0] + rest =~= ws);
    }
}

/// Kept, clean-fixed words tokenize one to one.
proof fn lemma_tokens_from_fixed(
    ws: Seq<Seq<char>>,
    base: int,
    cfg: TokenizerConfig,
    stops: Seq<Seq<char>>,
)
    requires
        forall|i: int| 0 <= i < ws.len() ==> clean_of(#[trigger] ws[i]) == ws[i],
        forall|i: int| 0 <= i < ws.len() ==> keep_token(#[trigger] ws[i], cfg, stops),
    ensures
        tokens_from(ws, base, cfg, stops) =~= Seq::new(
            ws.len(),
            |i: int| (ws[i], base + i, spec_stem(ws[i], cfg)),
        ),
    decreases ws.len(),
{
    if ws.len() > 0 {
        let rest = ws.drop_first();
        assert forall|i: int| 0 <= i < rest.len() implies clean_of(#[trigger] rest[i])
            == rest[i] by {
            assert(rest[i] == ws[i + 1]);
        }
        assert forall|i: int| 0 <= i < rest.len() implies keep_token(
            #[trigger] rest[i],
            cfg,
            stops,
        ) by {
            assert(rest[i] == ws[i + 1]);
        }
        lemma_tokens_from_fixed(rest, base + 1, cfg, stops);
        assert(clean_of(ws[0]) == ws[0]);
        assert(keep_token(ws[0], cfg, stops));
        assert(tokens_from(ws, base, cfg, stops) =~= seq![
            (ws[0], base, spec_stem(ws[0], cfg)),
        ] + tokens_from(rest, base + 1, cfg, stops));
    }
}

/// Tokenizer idempotence: a list of surface forms the pipeline can
/// produce — non-empty, whitespace-free, fixed by cleaning, and kept by
/// the filters — joined with single blanks tokenizes back to exactly
/// those forms, in order, at positions 0, 1, 2, …  (The blank hypothesis
/// names the one fact of the character class relied on: a blank is
/// whitespace.)
pub proof fn lemma_tokenize_fixed_words(
    ws: Seq<Seq<char>>,
    cfg: TokenizerConfig,
    stops: Seq<Seq<char>>,
)
    requires
        is_space_char(' '),
        forall|i: int| 0 <= i < ws.len() ==> (#[trigger] ws[i]).len() >= 1,
        forall|i: int, m: int|
            0 <= i < ws.len() && 0 <= m < ws[i].len() ==> !is_space_char(#[trigger] ws[i][m]),
        forall|i: int| 0 <= i < ws.len() ==> clean_of(#[trigger] ws[i]) == ws[i],
        forall|i: int| 0 <= i < ws.len() ==> keep_token(#[trigger] ws[i], cfg, stops),
    ensures
        tokens_of(join_space(ws), cfg, stops) =~= Seq::new(
            ws.len(),
            |i: int| (ws[i], i, spec_stem(ws[i], cfg)),
        ),
{
    lemma_split_join(ws);
    lemma_tokens_from_fixed(ws, 0, cfg, stops);
}

} // verus!

//! CJK bigram analyzer: no dictionary, works for Chinese, Japanese and
//! Korean text.
//!
//! - A CJK character gives the bigram with the next character when that is
//!   CJK too, then the character alone (for boundary coverage).
//! - A run of alphabetic characters other than CJK gives one lowercased
//!   word; a CJK character ends the run.
//! - A run of numeric characters gives one number.
//! - Anything else is skipped.
//!
//! Each token's position is its index in the token stream.

use vstd::prelude::*;

verus! {

broadcast use vstd::string::group_string_axioms;

/// `char::is_alphabetic` (the Unicode `Alphabetic` property).
pub uninterp spec fn alphabetic(c: char) -> bool;

/// `char::is_numeric` (the Unicode general categories Nd, Nl and No).
pub uninterp spec fn numeric(c: char) -> bool;

/// The characters of `char::to_lowercase` (Unicode lowercase mapping).
pub uninterp spec fn lowercase(c: char) -> Seq<char>;

/// `char::is_alphabetic`: whether `c` has the Unicode `Alphabetic`
/// property. The tables are not restated; the result is named by
/// `alphabetic`.
#[verifier::external_body]
fn char_is_alphabetic(c: char) -> (b: bool)
    ensures
        b == alphabetic(c),
{
    c.is_alphabetic()
}

/// `char::is_numeric`: whether `c` is in a Unicode numeric category. The
/// tables are not restated; the result is named by `numeric`.
#[verifier::external_body]
fn char_is_numeric(c: char) -> (b: bool)
    ensures
        b == numeric(c),
{
    c.is_numeric()
}

/// `char::to_lowercase`, its characters collected in order: one or more
/// characters, as std documents. The mapping itself is not restated; the
/// result is named by `lowercase`.
#[verifier::external_body]
fn char_to_lowercase(c: char) -> (r: Vec<char>)
    ensures
        r@ == lowercase(c),
        r@.len() >= 1,
{
    c.to_lowercase().collect()
}

/// `String: FromIterator<char>`: the string of the given characters, in
/// order.
#[verifier::external_body]
fn string_of_chars(cs: &[char]) -> (s: String)
    ensures
        s@ == cs@,
{
    cs.iter().collect()
}

/// Whether `c` is in a CJK block: Unified Ideographs, Extension A,
/// Compatibility Ideographs, Hiragana, Katakana or Hangul syllables.
pub open spec fn cjk(c: char) -> bool {
    let v = c as u32;
    ||| 0x4E00 <= v <= 0x9FFF
    ||| 0x3400 <= v <= 0x4DBF
    ||| 0xF900 <= v <= 0xFAFF
    ||| 0x3040 <= v <= 0x309F
    ||| 0x30A0 <= v <= 0x30FF
    ||| 0xAC00 <= v <= 0xD7AF
}

/// Whether `c` is in a CJK block (see `cjk`).
pub fn is_cjk(c: char) -> (b: bool)
    ensures
        b == cjk(c),
{
    let v = c as u32;
    (0x4E00 <= v && v <= 0x9FFF)
        || (0x3400 <= v && v <= 0x4DBF)
        || (0xF900 <= v && v <= 0xFAFF)
        || (0x3040 <= v && v <= 0x309F)
        || (0x30A0 <= v && v <= 0x30FF)
        || (0xAC00 <= v && v <= 0xD7AF)
}

/// Whether `c` continues a word: alphabetic and not CJK.
pub open spec fn word_char(c: char) -> bool {
    alphabetic(c) && !cjk(c)
}

/// The end of the run of word characters starting at `i`.
pub open spec fn alpha_run_end(cs: Seq<char>, i: int) -> int
    decreases cs.len() - i,
{
    if 0 <= i < cs.len() && word_char(cs[i]) {
        alpha_run_end(cs, i + 1)
    } else {
        i
    }
}

/// The end of the run of numeric characters starting at `i`.
pub open spec fn numeric_run_end(cs: Seq<char>, i: int) -> int
    decreases cs.len() - i,
{
    if 0 <= i < cs.len() && numeric(cs[i]) {
        numeric_run_end(cs, i + 1)
    } else {
        i
    }
}

/// The lowercase mapping of each character, concatenated.
pub open spec fn lowercase_all(s: Seq<char>) -> Seq<char>
    decreases s.len(),
{
    if s.len() == 0 {
        Seq::empty()
    } else {
        lowercase_all(s.drop_last()) + lowercase(s.last())
    }
}

/// A word run ends within the text, not before its start.
pub proof fn lemma_alpha_run_end_bounds(cs: Seq<char>, i: int)
    requires
        0 <= i <= cs.len(),
    ensures
        i <= alpha_run_end(cs, i) <= cs.len(),
    decreases cs.len() - i,
{
    if i < cs.len() && word_char(cs[i]) {
        lemma_alpha_run_end_bounds(cs, i + 1);
    }
}

/// A numeric run ends within the text, not before its start.
pub proof fn lemma_numeric_run_end_bounds(cs: Seq<char>, i: int)
    requires
        0 <= i <= cs.len(),
    ensures
        i <= numeric_run_end(cs, i) <= cs.len(),
    decreases cs.len() - i,
{
    if i < cs.len() && numeric(cs[i]) {
        lemma_numeric_run_end_bounds(cs, i + 1);
    }
}

/// The terms of the characters from index `i` on, in token order.
pub open spec fn terms_from(cs: Seq<char>, i: int) -> Seq<Seq<char>>
    decreases cs.len() - i,
{
    if i < 0 || i >= cs.len() {
        Seq::empty()
    } else {
        let c = cs[i];
        if cjk(c) {
            let head = if i + 1 < cs.len() && cjk(cs[i + 1]) {
                seq![cs.subrange(i, i + 2), seq![c]]
            } else {
                seq![seq![c]]
            };
            head + terms_from(cs, i + 1)
        } else if alphabetic(c) {
            proof {
                lemma_alpha_run_end_bounds(cs, i + 1);
            }
            let j = alpha_run_end(cs, i);
            seq![lowercase_all(cs.subrange(i, j))] + terms_from(cs, j)
        } else if numeric(c) {
            proof {
                lemma_numeric_run_end_bounds(cs, i + 1);
            }
            let j = numeric_run_end(cs, i);
            seq![cs.subrange(i, j)] + terms_from(cs, j)
        } else {
            terms_from(cs, i + 1)
        }
    }
}

/// The terms of a text, in token order.
pub open spec fn text_terms(text: Seq<char>) -> Seq<Seq<char>> {
    terms_from(text, 0)
}

/// Whether `c` starts a token: a CJK, alphabetic or numeric character.
pub open spec fn token_char(c: char) -> bool {
    cjk(c) || alphabetic(c) || numeric(c)
}

/// The characters from index `i` on give no term exactly when none of them
/// starts a token.
pub proof fn lemma_terms_from_empty(cs: Seq<char>, i: int)
    requires
        0 <= i <= cs.len(),
    ensures
        terms_from(cs, i).len() == 0 <==> forall|j: int| i <= j < cs.len() ==> !token_char(#[trigger] cs[j]),
    decreases cs.len() - i,
{
    if i < cs.len() {
        let c = cs[i];
        if cjk(c) {
        } else if alphabetic(c) {
            lemma_alpha_run_end_bounds(cs, i + 1);
        } else if numeric(c) {
            lemma_numeric_run_end_bounds(cs, i + 1);
        } else {
            lemma_terms_from_empty(cs, i + 1);
            if terms_from(cs, i).len() == 0 {
                assert forall|j: int| i <= j < cs.len() implies !token_char(#[trigger] cs[j]) by {
                    if j > i {
                        assert(i + 1 <= j);
                    }
                }
            }
        }
    }
}

/// Whether `t` is a term read from `cs[i..j]`: a maximal run of numeric
/// characters starting at a character that is neither CJK nor alphabetic,
/// taken as it is; a maximal run of word characters, lowercased; a single
/// CJK character; or two adjacent CJK characters.
pub open spec fn term_at(cs: Seq<char>, t: Seq<char>, i: int, j: int) -> bool {
    &&& 0 <= i < j <= cs.len()
    &&& {
        ||| {
            &&& !cjk(cs[i]) && !alphabetic(cs[i])
            &&& (forall|k: int| i <= k < j ==> numeric(#[trigger] cs[k]))
            &&& (j == cs.len() || !numeric(cs[j]))
            &&& t == cs.subrange(i, j)
        }
        ||| {
            &&& (forall|k: int| i <= k < j ==> word_char(#[trigger] cs[k]))
            &&& (j == cs.len() || !word_char(cs[j]))
            &&& t == lowercase_all(cs.subrange(i, j))
        }
        ||| j == i + 1 && cjk(cs[i]) && t == seq![cs[i]]
        ||| j == i + 2 && cjk(cs[i]) && cjk(cs[i + 1]) && t == cs.subrange(i, j)
    }
}

/// Whether `t` is read from some stretch of `cs` (see `term_at`).
pub open spec fn term_of_text(cs: Seq<char>, t: Seq<char>) -> bool {
    exists|i: int, j: int| #[trigger] term_at(cs, t, i, j)
}

proof fn lemma_word_run(cs: Seq<char>, i: int)
    requires
        0 <= i <= cs.len(),
    ensures
        forall|k: int| i <= k < alpha_run_end(cs, i) ==> word_char(#[trigger] cs[k]),
        alpha_run_end(cs, i) == cs.len() || !word_char(cs[alpha_run_end(cs, i)]),
    decreases cs.len() - i,
{
    lemma_alpha_run_end_bounds(cs, i);
    if i < cs.len() && word_char(cs[i]) {
        lemma_word_run(cs, i + 1);
    }
}

proof fn lemma_numeric_run(cs: Seq<char>, i: int)
    requires
        0 <= i <= cs.len(),
    ensures
        forall|k: int| i <= k < numeric_run_end(cs, i) ==> numeric(#[trigger] cs[k]),
        numeric_run_end(cs, i) == cs.len() || !numeric(cs[numeric_run_end(cs, i)]),
    decreases cs.len() - i,
{
    lemma_numeric_run_end_bounds(cs, i);
    if i < cs.len() && numeric(cs[i]) {
        lemma_numeric_run(cs, i + 1);
    }
}

proof fn lemma_terms_from_shape(cs: Seq<char>, i: int)
    requires
        0 <= i <= cs.len(),
    ensures
        forall|k: int| 0 <= k < terms_from(cs, i).len() ==> term_of_text(cs, #[trigger] terms_from(cs, i)[k]),
    decreases cs.len() - i,
{
    if i < cs.len() {
        let c = cs[i];
        if cjk(c) {
            lemma_terms_from_shape(cs, i + 1);
            let rest = terms_from(cs, i + 1);
            let head = if i + 1 < cs.len() && cjk(cs[i + 1]) {
                seq![cs.subrange(i, i + 2), seq![c]]
            } else {
                seq![seq![c]]
            };
            assert(term_at(cs, seq![c], i, i + 1));
            if i + 1 < cs.len() && cjk(cs[i + 1]) {
                assert(term_at(cs, cs.subrange(i, i + 2), i, i + 2));
            }
            assert forall|k: int| 0 <= k < terms_from(cs, i).len() implies term_of_text(cs, #[trigger] terms_from(cs, i)[k]) by {
                assert(terms_from(cs, i) == head + rest);
                if k >= head.len() {
                    assert(terms_from(cs, i)[k] == rest[k - head.len()]);
                }
            }
        } else if alphabetic(c) {
            lemma_alpha_run_end_bounds(cs, i + 1);
            let j = alpha_run_end(cs, i);
            lemma_word_run(cs, i);
            lemma_terms_from_shape(cs, j);
            let t = lowercase_all(cs.subrange(i, j));
            assert(j == alpha_run_end(cs, i + 1));
            assert(term_at(cs, t, i, j));
            assert forall|k: int| 0 <= k < terms_from(cs, i).len() implies term_of_text(cs, #[trigger] terms_from(cs, i)[k]) by {
                assert(terms_from(cs, i) == seq![t] + terms_from(cs, j));
                if k >= 1 {
                    assert(terms_from(cs, i)[k] == terms_from(cs, j)[k - 1]);
                }
            }
        } else if numeric(c) {
            lemma_numeric_run_end_bounds(cs, i + 1);
            let j = numeric_run_end(cs, i);
            lemma_numeric_run(cs, i);
            lemma_terms_from_shape(cs, j);
            let t = cs.subrange(i, j);
            assert(j == numeric_run_end(cs, i + 1));
            assert(term_at(cs, t, i, j));
            assert forall|k: int| 0 <= k < terms_from(cs, i).len() implies term_of_text(cs, #[trigger] terms_from(cs, i)[k]) by {
                assert(terms_from(cs, i) == seq![t] + terms_from(cs, j));
                if k >= 1 {
                    assert(terms_from(cs, i)[k] == terms_from(cs, j)[k - 1]);
                }
            }
        } else {
            lemma_terms_from_shape(cs, i + 1);
        }
    }
}

/// Term law: every term of a text is read from a stretch of it. A number
/// is a maximal run of numeric characters taken as it is (so it holds
/// nothing but numeric characters); a word is a maximal run of alphabetic,
/// non-CJK characters, lowercased; a CJK term is one CJK character or two
/// adjacent ones.
pub proof fn lemma_text_terms_are_read_from_text(text: Seq<char>)
    ensures
        forall|k: int| 0 <= k < text_terms(text).len() ==> term_of_text(text, #[trigger] text_terms(text)[k]),
{
    lemma_terms_from_shape(text, 0);
}

/// A token: its term and its index in the token stream.
#[derive(Debug, Clone)]
pub struct Token {
    pub term: String,
    pub position: u32,
}

/// The dictionary-free CJK analyzer.
pub struct CjkAnalyzer {}

fn chars_of(text: &str) -> (v: Vec<char>)
    ensures
        v@ == text@,
{
    let mut v: Vec<char> = Vec::new();
    for c in it: text.chars()
        invariant
            it.seq() == text@,
            v@ == text@.take(it.index()),
    {
        proof {
            assert(text@.take(it.index() + 1) =~= v@.push(c));
        }
        v.push(c);
    }
    proof {
        assert(text@.take(text@.len() as int) =~= text@);
    }
    v
}

/// The terms of `cs`, in token order.
fn scan_terms(cs: &Vec<char>) -> (r: Vec<String>)
    ensures
        r@.map_values(|s: String| s@) == terms_from(cs@, 0),
        forall|k: int| 0 <= k < r@.len() ==> (#[trigger] r@[k])@.len() > 0,
{
    let n = cs.len();
    let mut out: Vec<String> = Vec::new();
    let mut i: usize = 0;
    while i < n
        invariant
            n == cs@.len(),
            0 <= i <= n,
            terms_from(cs@, 0) == out@.map_values(|s: String| s@) + terms_from(cs@, i as int),
            forall|k: int| 0 <= k < out@.len() ==> (#[trigger] out@[k])@.len() > 0,
        decreases n - i,
    {
        let ghost done = out@.map_values(|s: String| s@);
        let c = cs[i];
        if is_cjk(c) {
            if i + 1 < n && is_cjk(cs[i + 1]) {
                let bigram = string_of_chars(&cs.as_slice()[i..i + 2]);
                out.push(bigram);
            }
            let single = string_of_chars(&cs.as_slice()[i..i + 1]);
            out.push(single);
            proof {
                assert(cs@.subrange(i as int, i + 1) =~= seq![c]);
                let head = if i + 1 < n && cjk(cs@[i + 1]) {
                    seq![cs@.subrange(i as int, i + 2), seq![c]]
                } else {
                    seq![seq![c]]
                };
                assert(out@.map_values(|s: String| s@) =~= done + head);
                assert(done + terms_from(cs@, i as int) =~= (done + head) + terms_from(cs@, i + 1));
            }
            i += 1;
        } else if char_is_alphabetic(c) {
            let start = i;
            let mut word: Vec<char> = Vec::new();
            while i < n && char_is_alphabetic(cs[i]) && !is_cjk(cs[i])
                invariant
                    n == cs@.len(),
                    start < n,
                    word_char(cs@[start as int]),
                    start <= i <= n,
                    alpha_run_end(cs@, start as int) == alpha_run_end(cs@, i as int),
                    word@ == lowercase_all(cs@.subrange(start as int, i as int)),
                    i > start ==> word@.len() > 0,
                decreases n - i,
            {
                let lower = char_to_lowercase(cs[i]);
                let mut k: usize = 0;
                let ghost w0 = word@;
                while k < lower.len()
                    invariant
                        0 <= k <= lower@.len(),
                        word@ == w0 + lower@.take(k as int),
                    decreases lower.len() - k,
                {
                    proof {
                        assert(lower@.take(k + 1) =~= lower@.take(k as int).push(lower@[k as int]));
                    }
                    word.push(lower[k]);
                    k += 1;
                }
                proof {
                    assert(lower@.take(lower@.len() as int) =~= lower@);
                    assert(cs@.subrange(start as int, i + 1).drop_last() =~= cs@.subrange(start as int, i as int));
                }
                i += 1;
            }
            proof {
                assert(alpha_run_end(cs@, i as int) == i);
                assert(alpha_run_end(cs@, start as int) == alpha_run_end(cs@, start + 1));
                lemma_alpha_run_end_bounds(cs@, start + 1);
            }
            let term = string_of_chars(word.as_slice());
            out.push(term);
            proof {
                assert(out@.map_values(|s: String| s@) =~= done.push(lowercase_all(cs@.subrange(start as int, i as int))));
                assert(done + terms_from(cs@, start as int) =~= out@.map_values(|s: String| s@) + terms_from(cs@, i as int));
            }
        } else if char_is_numeric(c) {
            let start = i;
            while i < n && char_is_numeric(cs[i])
                invariant
                    n == cs@.len(),
                    start < n,
                    numeric(cs@[start as int]),
                    start <= i <= n,
                    numeric_run_end(cs@, start as int) == numeric_run_end(cs@, i as int),
                decreases n - i,
            {
                i += 1;
            }
            proof {
                assert(numeric_run_end(cs@, i as int) == i);
            }
            let term = string_of_chars(&cs.as_slice()[start..i]);
            out.push(term);
            proof {
                assert(out@.map_values(|s: String| s@) =~= done.push(cs@.subrange(start as int, i as int)));
                assert(done + terms_from(cs@, start as int) =~= out@.map_values(|s: String| s@) + terms_from(cs@, i as int));
            }
        } else {
            i += 1;
        }
    }
    proof {
        assert(out@.map_values(|s: String| s@) + terms_from(cs@, i as int) =~= out@.map_values(|s: String| s@));
    }
    out
}

impl CjkAnalyzer {
    /// Tokenize `text`: the terms of `text_terms`, each at its index.
    /// Positions are 32-bit, so the text may give at most `u32::MAX`
    /// tokens (`try_tokenize` checks this).
    pub fn tokenize(text: &str) -> (r: Vec<Token>)
        requires
            text_terms(text@).len() <= u32::MAX,
        ensures
            r@.len() == text_terms(text@).len(),
            forall|k: int| 0 <= k < r@.len() ==> (#[trigger] r@[k]).term@ == text_terms(text@)[k] && r@[k].position == k,
            forall|k: int| 0 <= k < r@.len() ==> (#[trigger] r@[k]).term@.len() > 0,
            forall|k: int| 0 <= k < r@.len() ==> term_of_text(text@, (#[trigger] r@[k]).term@),
            r@.len() == 0 <==> forall|j: int| 0 <= j < text@.len() ==> !token_char(#[trigger] text@[j]),
    {
        proof {
            lemma_terms_from_empty(text@, 0);
            lemma_text_terms_are_read_from_text(text@);
        }
        let cs = chars_of(text);
        let terms = scan_terms(&cs);
        let ghost tv = terms@.map_values(|s: String| s@);
        let mut r: Vec<Token> = Vec::new();
        let mut pos: u32 = 0;
        for term in it: terms.into_iter()
            invariant
                it.seq().map_values(|s: String| s@) == text_terms(text@),
                it.seq().len() <= u32::MAX,
                pos == it.index(),
                r@.len() == it.index(),
                forall|k: int| 0 <= k < r@.len() ==> (#[trigger] r@[k]).term@ == text_terms(text@)[k] && r@[k].position == k,
                forall|k: int| 0 <= k < it.seq().len() ==> (#[trigger] it.seq()[k])@.len() > 0,
                forall|k: int| 0 <= k < r@.len() ==> (#[trigger] r@[k]).term@.len() > 0,
        {
            proof {
                assert(it.seq().map_values(|s: String| s@)[it.index() as int] == term@);
            }
            r.push(Token { term, position: pos });
            pos += 1;
        }
        r
    }

    /// Tokenize `text`, or `None` when it gives more than `u32::MAX`
    /// tokens, whose positions would not fit.
    pub fn try_tokenize(text: &str) -> (r: Option<Vec<Token>>)
        ensures
            match r {
                Some(ts) => {
                    &&& text_terms(text@).len() <= u32::MAX
                    &&& ts@.len() == text_terms(text@).len()
                    &&& forall|k: int| 0 <= k < ts@.len() ==> (#[trigger] ts@[k]).term@ == text_terms(text@)[k] && ts@[k].position == k
                    &&& forall|k: int| 0 <= k < ts@.len() ==> (#[trigger] ts@[k]).term@.len() > 0
                    &&& (ts@.len() == 0 <==> forall|j: int| 0 <= j < text@.len() ==> !token_char(#[trigger] text@[j]))
                },
                None => text_terms(text@).len() > u32::MAX,
            },
    {
        let cs = chars_of(text);
        let terms = scan_terms(&cs);
        proof {
            assert(terms@.map_values(|s: String| s@).len() == terms@.len());
        }
        if terms.len() as u64 > 0xffff_ffffu64 {
            None
        } else {
            Some(Self::tokenize(text))
        }
    }
}

} // verus!

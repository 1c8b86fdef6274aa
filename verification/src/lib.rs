//! Lexical front-end of a rule-based grammar checker: boundary-exact
//! segmentation of text into words, punctuation and URLs, and a
//! dictionary-backed tagger that annotates each token with candidate
//! (inflection, part-of-speech) pairs.
//!
//! `tokenize` is the single entry point: it segments the input, builds one
//! token per non-whitespace piece behind a leading sentence-start sentinel,
//! consults the dictionary for each token's lowercase form, and derives the
//! inflection and part-of-speech lists. Dictionary state is an explicit
//! immutable value passed in by shared reference; tokenization itself never
//! fails.
use vstd::prelude::*;

use unicode_segmentation::UnicodeSegmentation;

pub mod chars;
pub mod segment;
pub mod tag;
pub mod token;

pub use chars::is_space_char;
pub use tag::{LoadError, Tagger};
pub use token::Token;

use crate::chars::{byte_index, bytes_to, chars_of, lemma_byte_index_zero, trimmed};
use crate::segment::{
    is_partition, lemma_partition_props, pieces_of, ranges_view, segment_text, url_char_ranges,
    urls_wf,
};
use crate::tag::Dict;
use crate::token::{build_token, is_sent_start, token_matches};

verus! {

broadcast use vstd::seq_lib::group_seq_lib_default, vstd::seq::group_seq_axioms, vstd::slice::group_slice_axioms;

/// A piece survives token building exactly when its whitespace-trimmed text
/// is non-empty.
pub open spec fn kept_piece(s: Seq<char>, p: (int, int)) -> bool {
    trimmed(s, p).len() > 0
}

/// The segmenter pieces that become tokens, in input order.
pub open spec fn kept_pieces(s: Seq<char>, ps: Seq<(int, int)>) -> Seq<(int, int)> {
    ps.filter(|p: (int, int)| kept_piece(s, p))
}

/// The full contract of tokenization: one sentence-start sentinel, then one
/// token per kept piece of the segmentation, each with the fields
/// `token_matches` prescribes.
pub open spec fn tokens_match(toks: Seq<Token>, s: Seq<char>, d: Dict) -> bool {
    let kp = kept_pieces(s, pieces_of(s));
    &&& toks.len() == 1 + kp.len()
    &&& is_sent_start(toks[0])
    &&& forall|i: int| 1 <= i < toks.len() ==> token_matches(#[trigger] toks[i], s, d, kp[i - 1])
}

proof fn lemma_kept_push(s: Seq<char>, ps: Seq<(int, int)>, x: (int, int))
    ensures
        kept_pieces(s, ps.push(x)) == if kept_piece(s, x) {
            kept_pieces(s, ps).push(x)
        } else {
            kept_pieces(s, ps)
        },
{
    reveal_with_fuel(Seq::<(int, int)>::filter, 2);
    assert(ps.push(x).drop_last() =~= ps);
    assert(ps.push(x).last() == x);
}

/// Turn `text` into its annotated token sequence: the sentinel first, then
/// one token for every piece of the segmentation whose trimmed text is
/// non-empty, in input order. Total: tokenization never fails.
pub fn tokenize(text: &str, tagger: &Tagger) -> (r: Vec<Token>)
    ensures
        tokens_match(r@, text@, tagger@),
        urls_wf(text@, url_char_ranges(text@), 0),
        is_partition(pieces_of(text@), 0, text@.len() as int),
{
    let ghost s = text@;
    let chars = chars_of(text);
    let pieces = segment_text(text, &chars);
    let total = text.as_bytes().len();
    let ghost pv = ranges_view(pieces@);
    proof {
        lemma_byte_index_zero(s);
        lemma_partition_props(pv, 0, s.len() as int);
    }
    let mut r: Vec<Token> = Vec::new();
    r.push(Token::sent_start());
    proof {
        reveal_with_fuel(Seq::<(int, int)>::filter, 1);
        assert(pv.take(0) =~= Seq::<(int, int)>::empty());
        assert(kept_pieces(s, pv.take(0)) =~= Seq::<(int, int)>::empty());
    }
    let mut cb: usize = 0;
    let mut j: usize = 0;
    let n = pieces.len();
    while j < n
        invariant
            0 <= j <= n,
            n == pieces@.len(),
            chars@ == s,
            text@ == s,
            pv == ranges_view(pieces@),
            pv == pieces_of(s),
            is_partition(pv, 0, s.len() as int),
            forall|i: int| 0 <= i < pv.len() ==> 0 <= (#[trigger] pv[i]).0 && pv[i].1 <= s.len(),
            total as int == byte_index(s, s.len() as int),
            j < n ==> cb as int == byte_index(s, pv[j as int].0),
            r@.len() == 1 + kept_pieces(s, pv.take(j as int)).len(),
            is_sent_start(r@[0]),
            forall|i: int|
                1 <= i < r@.len() ==> token_matches(
                    #[trigger] r@[i],
                    s,
                    tagger@,
                    kept_pieces(s, pv.take(j as int))[i - 1],
                ),
        decreases n - j,
    {
        let a = pieces[j].0;
        let b = pieces[j].1;
        proof {
            assert(pv[j as int] == (a as int, b as int));
            assert(pv[j as int].0 < pv[j as int].1);
        }
        let be = bytes_to(&chars, a, b, cb, total);
        let tok = build_token(&chars, tagger, a, b, cb, be);
        let ghost kp0 = kept_pieces(s, pv.take(j as int));
        proof {
            lemma_kept_push(s, pv.take(j as int), pv[j as int]);
            assert(pv.take(j + 1) =~= pv.take(j as int).push(pv[j as int]));
        }
        match tok {
            Some(t) => {
                let ghost r0 = r@;
                r.push(t);
                proof {
                    assert(kept_piece(s, pv[j as int]));
                    let kp1 = kept_pieces(s, pv.take(j + 1));
                    assert(kp1 == kp0.push(pv[j as int]));
                    assert(r@ =~= r0.push(t));
                    assert forall|i: int| 1 <= i < r@.len() implies token_matches(
                        #[trigger] r@[i],
                        s,
                        tagger@,
                        kp1[i - 1],
                    ) by {
                        if i < r0.len() {
                            assert(r@[i] == r0[i]);
                            assert(kp1[i - 1] == kp0[i - 1]);
                        } else {
                            assert(r@[i] == t);
                            assert(kp1[i - 1] == pv[j as int]);
                        }
                    }
                }
            },
            None => {
                proof {
                    assert(!kept_piece(s, pv[j as int]));
                    assert(kept_pieces(s, pv.take(j + 1)) == kp0);
                }
            },
        }
        proof {
            if j + 1 < n {
                assert(pv[j + 1].0 == pv[j as int].1);
            }
        }
        cb = be;
        j = j + 1;
    }
    proof {
        assert(pv.take(n as int) =~= pv);
    }
    r
}

proof fn lemma_kept_props(s: Seq<char>, ps: Seq<(int, int)>)
    requires
        forall|i: int| 0 <= i < ps.len() ==> 0 <= (#[trigger] ps[i]).0 < ps[i].1 <= s.len(),
        forall|i: int, j: int|
            0 <= i < j < ps.len() ==> (#[trigger] ps[i]).1 <= (#[trigger] ps[j]).0,
    ensures
        forall|i: int|
            0 <= i < kept_pieces(s, ps).len() ==> 0 <= (#[trigger] kept_pieces(s, ps)[i]).0
                < kept_pieces(s, ps)[i].1 <= s.len(),
        forall|i: int, j: int|
            0 <= i < j < kept_pieces(s, ps).len() ==> (#[trigger] kept_pieces(s, ps)[i]).1 <= (
            #[trigger] kept_pieces(s, ps)[j]).0,
        forall|k: int|
            0 <= k < kept_pieces(s, ps).len() ==> ps.contains(#[trigger] kept_pieces(s, ps)[k]),
    decreases ps.len(),
{
    reveal_with_fuel(Seq::<(int, int)>::filter, 2);
    if ps.len() > 0 {
        let u = ps.drop_last();
        let x = ps.last();
        assert(forall|i: int| 0 <= i < u.len() ==> #[trigger] u[i] == ps[i]);
        lemma_kept_props(s, u);
        let ku = kept_pieces(s, u);
        let kp = kept_pieces(s, ps);
        assert forall|k: int| 0 <= k < kp.len() implies ps.contains(#[trigger] kp[k]) by {
            if k < ku.len() {
                assert(kp[k] == ku[k]);
                let m = choose|m: int| 0 <= m < u.len() && u[m] == ku[k];
                assert(ps[m] == kp[k]);
            } else {
                assert(kp[k] == x);
                assert(ps[ps.len() - 1] == x);
            }
        }
        assert forall|i: int| 0 <= i < kp.len() implies 0 <= (#[trigger] kp[i]).0 < kp[i].1
            <= s.len() by {
            if i < ku.len() {
                assert(kp[i] == ku[i]);
            } else {
                assert(kp[i] == x && x == ps[ps.len() - 1]);
            }
        }
        assert forall|i: int, j: int| 0 <= i < j < kp.len() implies (#[trigger] kp[i]).1 <= (
        #[trigger] kp[j]).0 by {
            if j < ku.len() {
                assert(kp[i] == ku[i] && kp[j] == ku[j]);
            } else {
                assert(kp[j] == x);
                assert(kp[i] == ku[i]);
                assert(u.contains(ku[i]));
                let m = choose|m: int| 0 <= m < u.len() && u[m] == ku[i];
                assert(ps[m] == ku[i]);
                assert(ps[m].1 <= ps[ps.len() - 1].0);
            }
        }
    }
}

/// Law: token spans are strictly increasing in start offset and
/// non-overlapping, matching left-to-right input order; each byte span is
/// at least as long as its character span, and exactly as long when the
/// input is pure ASCII.
pub proof fn lemma_token_spans(toks: Seq<Token>, s: Seq<char>, d: Dict)
    requires
        tokens_match(toks, s, d),
        is_partition(pieces_of(s), 0, s.len() as int),
    ensures
        forall|i: int|
            1 <= i < toks.len() ==> (#[trigger] toks[i]).char_span.0 < toks[i].char_span.1,
        forall|i: int, j: int|
            1 <= i < j < toks.len() ==> (#[trigger] toks[i]).char_span.1 <= (
            #[trigger] toks[j]).char_span.0,
        forall|i: int, j: int|
            1 <= i < j < toks.len() ==> (#[trigger] toks[i]).byte_span.1 <= (
            #[trigger] toks[j]).byte_span.0,
        forall|i: int|
            1 <= i < toks.len() ==> toks[i].byte_span.1 - toks[i].byte_span.0 >= (
            #[trigger] toks[i]).char_span.1 - toks[i].char_span.0,
        (forall|k: int| 0 <= k < s.len() ==> ((#[trigger] s[k]) as u32) < 0x80) ==> forall|i: int|
            1 <= i < toks.len() ==> toks[i].byte_span.1 - toks[i].byte_span.0 == (
            #[trigger] toks[i]).char_span.1 - toks[i].char_span.0,
{
    let ps = pieces_of(s);
    let kp = kept_pieces(s, ps);
    lemma_partition_props(ps, 0, s.len() as int);
    lemma_kept_props(s, ps);
    assert forall|i: int| 1 <= i < toks.len() implies (#[trigger] toks[i]).char_span.0
        < toks[i].char_span.1 by {
        assert(token_matches(toks[i], s, d, kp[i - 1]));
    }
    assert forall|i: int, j: int| 1 <= i < j < toks.len() implies (#[trigger] toks[i]).char_span.1
        <= (#[trigger] toks[j]).char_span.0 by {
        assert(token_matches(toks[i], s, d, kp[i - 1]));
        assert(token_matches(toks[j], s, d, kp[j - 1]));
        assert(kp[i - 1].1 <= kp[j - 1].0);
    }
    assert forall|i: int, j: int| 1 <= i < j < toks.len() implies (#[trigger] toks[i]).byte_span.1
        <= (#[trigger] toks[j]).byte_span.0 by {
        assert(token_matches(toks[i], s, d, kp[i - 1]));
        assert(token_matches(toks[j], s, d, kp[j - 1]));
        crate::chars::lemma_byte_index_mono(s, kp[i - 1].1, kp[j - 1].0);
    }
    assert forall|i: int| 1 <= i < toks.len() implies toks[i].byte_span.1 - toks[i].byte_span.0
        >= (#[trigger] toks[i]).char_span.1 - toks[i].char_span.0 by {
        assert(token_matches(toks[i], s, d, kp[i - 1]));
        crate::chars::lemma_byte_index_mono(s, kp[i - 1].0, kp[i - 1].1);
    }
    if forall|k: int| 0 <= k < s.len() ==> ((#[trigger] s[k]) as u32) < 0x80 {
        assert forall|i: int| 1 <= i < toks.len() implies toks[i].byte_span.1
            - toks[i].byte_span.0 == (#[trigger] toks[i]).char_span.1 - toks[i].char_span.0 by {
            assert(token_matches(toks[i], s, d, kp[i - 1]));
            crate::chars::lemma_byte_index_ascii(s, kp[i - 1].0, kp[i - 1].1);
        }
    }
}

/// Byte ranges of the sentence-like spans of the text: a function of the
/// character sequence alone (UAX#29 sentence segmentation, keeping only
/// spans that contain an alphanumeric character).
pub uninterp spec fn sentence_bounds(s: Seq<char>) -> Seq<(usize, usize)>;

/// Relies on unicode-segmentation's `UnicodeSegmentation::unicode_sentences`:
/// the sentences are non-empty, non-overlapping substrings of the text in
/// input order, reported here by their byte ranges.
#[verifier::external_body]
fn sentence_spans(text: &str) -> (r: Vec<(usize, usize)>)
    ensures
        r@ == sentence_bounds(text@),
        forall|i: int|
            0 <= i < r@.len() ==> (#[trigger] r@[i]).0 < r@[i].1 <= byte_index(
                text@,
                text@.len() as int,
            ),
        forall|i: int, j: int|
            0 <= i < j < r@.len() ==> (#[trigger] r@[i]).1 <= (#[trigger] r@[j]).0,
{
    text.unicode_sentences().map(
        |sen| {
            let off = sen.as_ptr() as usize - text.as_ptr() as usize;
            (off, off + sen.len())
        },
    ).collect()
}

/// Sentence boundaries of the input as byte-offset pairs: ordered,
/// non-overlapping and within the input. Exposed for optional downstream
/// use; tokenization does not act on them.
pub fn sentence_boundaries(text: &str) -> (r: Vec<(usize, usize)>)
    ensures
        r@ == sentence_bounds(text@),
        forall|i: int|
            0 <= i < r@.len() ==> (#[trigger] r@[i]).0 < r@[i].1 <= byte_index(
                text@,
                text@.len() as int,
            ),
        forall|i: int, j: int|
            0 <= i < j < r@.len() ==> (#[trigger] r@[i]).1 <= (#[trigger] r@[j]).0,
{
    sentence_spans(text)
}

} // verus!

//! The token data model and the builder that turns one segmenter piece into
//! a `Token`.
use vstd::prelude::*;
use vstd::string::StringExecFns;

use crate::chars::{
    byte_index, is_space_char, lower_of, lowercase, space_char, string_from_chars, subvec, trim_end,
    trim_start, trimmed,
};
use crate::tag::{lookup_spec, tags_view, Dict, Tagger};

verus! {

broadcast use vstd::seq_lib::group_seq_lib_default, vstd::seq::group_seq_axioms;

/// One lexical unit: its surface text (whitespace-trimmed), lowercase form,
/// dictionary tag candidates, derived inflection and part-of-speech lists,
/// character and byte spans in the input, and whether the character just
/// before it is whitespace.
#[derive(Debug)]
pub struct Token {
    pub text: String,
    pub lower: String,
    pub tags: Vec<(String, String)>,
    pub inflections: Vec<String>,
    pub lower_inflections: Vec<String>,
    pub postags: Vec<String>,
    pub char_span: (usize, usize),
    pub byte_span: (usize, usize),
    pub has_space_before: bool,
}

/// View of a list of strings.
pub open spec fn strs_view(v: Seq<String>) -> Seq<Seq<char>> {
    v.map_values(|s: String| s@)
}

/// The inflection forms of a list of tag pairs.
pub open spec fn firsts(ts: Seq<(Seq<char>, Seq<char>)>) -> Seq<Seq<char>> {
    ts.map_values(|t: (Seq<char>, Seq<char>)| t.0)
}

/// The part-of-speech labels of a list of tag pairs.
pub open spec fn seconds(ts: Seq<(Seq<char>, Seq<char>)>) -> Seq<Seq<char>> {
    ts.map_values(|t: (Seq<char>, Seq<char>)| t.1)
}

/// The sentence-start sentinel: a synthetic token with tag `SENT_START` and
/// a zero-length span at offset zero, consuming no input. It has no tag
/// candidates, so its derived inflection lists hold just its own empty
/// surface text, as the postprocessing rule gives every token.
pub open spec fn is_sent_start(t: Token) -> bool {
    &&& t.text@ == Seq::<char>::empty()
    &&& t.lower@ == Seq::<char>::empty()
    &&& t.tags@.len() == 0
    &&& strs_view(t.inflections@) == seq![Seq::<char>::empty()]
    &&& strs_view(t.lower_inflections@) == seq![Seq::<char>::empty()]
    &&& strs_view(t.postags@) == seq!["SENT_START"@]
    &&& t.char_span.0 == 0 && t.char_span.1 == 0
    &&& t.byte_span.0 == 0 && t.byte_span.1 == 0
    &&& !t.has_space_before
}

/// What the token built for piece `p` of input `s` holds, with dictionary
/// `d`: trimmed surface text, its lowercase form, the dictionary candidates
/// for that form, exact character and byte spans of the untrimmed piece,
/// whitespace adjacency, and the derived inflection and part-of-speech
/// lists (`UNKNOWN` when the dictionary offers nothing).
pub open spec fn token_matches(t: Token, s: Seq<char>, d: Dict, p: (int, int)) -> bool {
    let txt = trimmed(s, p);
    let low = lower_of(txt);
    let tags = lookup_spec(d, low);
    &&& t.text@ == txt
    &&& t.lower@ == low
    &&& tags_view(t.tags@) == tags
    &&& t.char_span.0 == p.0 && t.char_span.1 == p.1
    &&& t.byte_span.0 == byte_index(s, p.0) && t.byte_span.1 == byte_index(s, p.1)
    &&& t.has_space_before == (p.0 > 0 && is_space_char(s[p.0 - 1]))
    &&& strs_view(t.inflections@) == firsts(tags).push(txt)
    &&& strs_view(t.lower_inflections@) == firsts(tags).push(txt).map_values(
        |x: Seq<char>| lower_of(x),
    )
    &&& strs_view(t.postags@) == if tags.len() == 0 {
        seq!["UNKNOWN"@]
    } else {
        seconds(tags)
    }
}

impl Token {
    /// The sentence-start sentinel, always the first token of any tokenized
    /// sequence.
    pub fn sent_start() -> (t: Token)
        ensures
            is_sent_start(t),
    {
        let mut postags: Vec<String> = Vec::new();
        postags.push(String::from_str("SENT_START"));
        let mut inflections: Vec<String> = Vec::new();
        inflections.push(String::new());
        let mut lower_inflections: Vec<String> = Vec::new();
        lower_inflections.push(String::new());
        let t = Token {
            text: String::new(),
            lower: String::new(),
            tags: Vec::new(),
            inflections,
            lower_inflections,
            postags,
            char_span: (0, 0),
            byte_span: (0, 0),
            has_space_before: false,
        };
        proof {
            assert(strs_view(t.postags@) =~= seq!["SENT_START"@]);
            assert(strs_view(t.inflections@) =~= seq![Seq::<char>::empty()]);
            assert(strs_view(t.lower_inflections@) =~= seq![Seq::<char>::empty()]);
        }
        t
    }
}

/// The whitespace-trimmed bounds of the range `[a, b)` of `chars`.
fn trim_range(chars: &Vec<char>, a: usize, b: usize) -> (r: (usize, usize))
    requires
        a <= b <= chars@.len(),
    ensures
        r.0 as int == trim_start(chars@, a as int, b as int),
        r.1 as int == trim_end(chars@, r.0 as int, b as int),
        a <= r.0 <= r.1 <= b,
{
    let ghost s = chars@;
    let mut i: usize = a;
    loop
        invariant_except_break
            a <= i <= b <= s.len(),
            chars@ == s,
            trim_start(s, a as int, b as int) == trim_start(s, i as int, b as int),
        ensures
            a <= i <= b <= s.len(),
            chars@ == s,
            trim_start(s, a as int, b as int) == i as int,
        decreases b - i,
    {
        if i >= b {
            break ;
        }
        if !space_char(chars[i]) {
            break ;
        }
        proof {
            assert(trim_start(s, i as int, b as int) == trim_start(s, i + 1, b as int));
        }
        i = i + 1;
    }
    let ts = i;
    let mut j: usize = b;
    loop
        invariant_except_break
            ts <= j <= b <= s.len(),
            chars@ == s,
            trim_end(s, ts as int, b as int) == trim_end(s, ts as int, j as int),
        ensures
            ts <= j <= b <= s.len(),
            chars@ == s,
            trim_end(s, ts as int, b as int) == j as int,
        decreases j,
    {
        if j <= ts {
            break ;
        }
        if !space_char(chars[j - 1]) {
            break ;
        }
        proof {
            assert(trim_end(s, ts as int, j as int) == trim_end(s, ts as int, j - 1));
        }
        j = j - 1;
    }
    (ts, j)
}

/// Build the token for the piece `[a, b)` of the input, or nothing when its
/// trimmed text is empty (whitespace never becomes a token).
pub(crate) fn build_token(
    chars: &Vec<char>,
    tagger: &Tagger,
    a: usize,
    b: usize,
    bs: usize,
    be: usize,
) -> (t: Option<Token>)
    requires
        a <= b <= chars@.len(),
        bs == byte_index(chars@, a as int),
        be == byte_index(chars@, b as int),
    ensures
        t is Some <==> trimmed(chars@, (a as int, b as int)).len() > 0,
        t matches Some(tok) ==> token_matches(tok, chars@, tagger@, (a as int, b as int)),
{
    let ghost s = chars@;
    let ghost p = (a as int, b as int);
    let (ts, te) = trim_range(chars, a, b);
    proof {
        assert(trimmed(s, p) == s.subrange(ts as int, te as int));
    }
    if ts >= te {
        return None;
    }
    let piece = subvec(chars, ts, te);
    let text = string_from_chars(&piece);
    let low = lowercase(text.as_str());
    let tags = tagger.get_tags(low.as_str());
    let ghost tgv = lookup_spec(tagger@, lower_of(trimmed(s, p)));
    let n = tags.len();
    let mut inflections: Vec<String> = Vec::new();
    let mut k: usize = 0;
    while k < n
        invariant
            0 <= k <= n,
            n == tags@.len(),
            tags_view(tags@) == tgv,
            strs_view(inflections@) == firsts(tgv).take(k as int),
        decreases n - k,
    {
        let ghost before = strs_view(inflections@);
        let f = tags[k].0.clone();
        inflections.push(f);
        proof {
            assert(strs_view(inflections@) =~= before.push(tags@[k as int].0@));
            assert(tags@[k as int].0@ == firsts(tgv)[k as int]);
            assert(firsts(tgv).take(k + 1) =~= firsts(tgv).take(k as int).push(
                firsts(tgv)[k as int],
            ));
        }
        k = k + 1;
    }
    let text2 = text.clone();
    inflections.push(text2);
    proof {
        assert(firsts(tgv).take(n as int) =~= firsts(tgv));
        assert(strs_view(inflections@) =~= firsts(tgv).push(trimmed(s, p)));
    }
    let m = inflections.len();
    let mut lower_inflections: Vec<String> = Vec::new();
    let mut k2: usize = 0;
    let ghost lows = firsts(tgv).push(trimmed(s, p)).map_values(|x: Seq<char>| lower_of(x));
    while k2 < m
        invariant
            0 <= k2 <= m,
            m == inflections@.len(),
            strs_view(inflections@) == firsts(tgv).push(trimmed(s, p)),
            lows == firsts(tgv).push(trimmed(s, p)).map_values(|x: Seq<char>| lower_of(x)),
            strs_view(lower_inflections@) == lows.take(k2 as int),
        decreases m - k2,
    {
        let ghost before = strs_view(lower_inflections@);
        let li = lowercase(inflections[k2].as_str());
        lower_inflections.push(li);
        proof {
            assert(inflections@[k2 as int]@ == firsts(tgv).push(trimmed(s, p))[k2 as int]);
            assert(strs_view(lower_inflections@) =~= before.push(lows[k2 as int]));
            assert(lows.take(k2 + 1) =~= lows.take(k2 as int).push(lows[k2 as int]));
        }
        k2 = k2 + 1;
    }
    proof {
        assert(lows.take(m as int) =~= lows);
    }
    let mut postags: Vec<String> = Vec::new();
    if n == 0 {
        postags.push(String::from_str("UNKNOWN"));
        proof {
            assert(strs_view(postags@) =~= seq!["UNKNOWN"@]);
        }
    } else {
        let mut k3: usize = 0;
        while k3 < n
            invariant
                0 <= k3 <= n,
                n == tags@.len(),
                tags_view(tags@) == tgv,
                strs_view(postags@) == seconds(tgv).take(k3 as int),
            decreases n - k3,
        {
            let ghost before = strs_view(postags@);
            let g = tags[k3].1.clone();
            postags.push(g);
            proof {
                assert(strs_view(postags@) =~= before.push(tags@[k3 as int].1@));
                assert(tags@[k3 as int].1@ == seconds(tgv)[k3 as int]);
                assert(seconds(tgv).take(k3 + 1) =~= seconds(tgv).take(k3 as int).push(
                    seconds(tgv)[k3 as int],
                ));
            }
            k3 = k3 + 1;
        }
        proof {
            assert(seconds(tgv).take(n as int) =~= seconds(tgv));
        }
    }
    let has_space_before = a > 0 && space_char(chars[a - 1]);
    Some(
        Token {
            text,
            lower: low,
            tags,
            inflections,
            lower_inflections,
            postags,
            char_span: (a, b),
            byte_span: (bs, be),
            has_space_before,
        },
    )
}

} // verus!

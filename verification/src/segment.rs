//! The segmenter: splits input text into an ordered sequence of
//! non-overlapping character ranges whose concatenation is the input.
//!
//! URL-like substrings (matched by a fixed permissive pattern) are atomic;
//! the text between them is split at every whitespace or delimiter
//! character, each such character forming a one-character piece and maximal
//! runs of other characters forming one piece each.
use vstd::prelude::*;
use vstd::utf8::encode_utf8;

use crate::chars::{
    byte_index, is_split_char, lemma_byte_index_mono, lemma_byte_index_step,
    lemma_byte_index_zero, split_char, utf8_width,
};

verus! {

broadcast use vstd::seq_lib::group_seq_lib_default, vstd::seq::group_seq_axioms;

/// Character ranges as mathematical integer pairs.
pub open spec fn ranges_view(v: Seq<(usize, usize)>) -> Seq<(int, int)> {
    v.map_values(|p: (usize, usize)| (p.0 as int, p.1 as int))
}

/// A byte offset that is the boundary of some character prefix of `s`.
pub open spec fn is_boundary(s: Seq<char>, b: int) -> bool {
    exists|k: int| 0 <= k <= s.len() && byte_index(s, k) == b
}

/// The byte ranges of the URL-like matches of the fixed pattern in `s`:
/// a function of the character sequence alone.
pub uninterp spec fn url_byte_matches(s: Seq<char>) -> Seq<(usize, usize)>;

/// Relies on `regex::Regex::find_iter` with the pattern built below, and on
/// `regex::Regex::new` to build it: the iterator yields successive
/// non-overlapping matches from left to right, reported as byte offsets that
/// lie on character boundaries of the haystack; this pattern never matches an
/// empty substring, so every match is non-empty.
#[verifier::external_body]
fn find_urls(text: &str) -> (r: Vec<(usize, usize)>)
    ensures
        r@ == url_byte_matches(text@),
        forall|i: int|
            0 <= i < r@.len() ==> (#[trigger] r@[i]).0 < r@[i].1 <= byte_index(
                text@,
                text@.len() as int,
            ),
        forall|i: int|
            0 <= i < r@.len() ==> is_boundary(text@, (#[trigger] r@[i]).0 as int) && is_boundary(
                text@,
                r@[i].1 as int,
            ),
        forall|i: int, j: int|
            0 <= i < j < r@.len() ==> (#[trigger] r@[i]).1 <= (#[trigger] r@[j]).0,
{
    let re = regex::Regex::new(
        r"(http(s)?://.)?(www\.)?[-a-zA-Z0-9@:%._\+~#=]{2,256}\.[a-z]{2,6}\b([-a-zA-Z0-9@:%_\+.~#?&//=]*)",
    ).unwrap();
    re.find_iter(text).map(|m| (m.start(), m.end())).collect()
}

/// First position in `[i, j)` holding a split character, or `j` if none.
pub open spec fn run_end(s: Seq<char>, i: int, j: int) -> int
    recommends
        0 <= i <= j <= s.len(),
    decreases j - i,
{
    if i >= j {
        j
    } else if is_split_char(s[i]) {
        i
    } else {
        run_end(s, i + 1, j)
    }
}

pub proof fn lemma_run_end_bounds(s: Seq<char>, i: int, j: int)
    requires
        i <= j,
    ensures
        i <= run_end(s, i, j) <= j,
        i < j && !is_split_char(s[i]) ==> i < run_end(s, i, j),
    decreases j - i,
{
    if i < j && !is_split_char(s[i]) {
        lemma_run_end_bounds(s, i + 1, j);
    }
}

/// The pieces the delimiter rule makes of the range `[i, j)` of `s`: every
/// split character is a one-character piece and every maximal run of other
/// characters is one piece.
pub open spec fn split_spec(s: Seq<char>, i: int, j: int) -> Seq<(int, int)>
    recommends
        0 <= i <= j <= s.len(),
    decreases j - i,
    when i <= j
    via split_spec_decreases
{
    if i >= j {
        Seq::empty()
    } else if is_split_char(s[i]) {
        seq![(i, i + 1)] + split_spec(s, i + 1, j)
    } else {
        seq![(i, run_end(s, i, j))] + split_spec(s, run_end(s, i, j), j)
    }
}

#[via_fn]
proof fn split_spec_decreases(s: Seq<char>, i: int, j: int) {
    if i < j && !is_split_char(s[i]) {
        lemma_run_end_bounds(s, i, j);
    }
}

/// The full segmentation: URL ranges are kept atomic, in order, and each gap
/// between them is split by the delimiter rule.
pub open spec fn segment_spec(s: Seq<char>, urls: Seq<(int, int)>, from: int) -> Seq<(int, int)>
    decreases urls.len(),
{
    if urls.len() == 0 {
        split_spec(s, from, s.len() as int)
    } else {
        split_spec(s, from, urls[0].0) + seq![urls[0]] + segment_spec(
            s,
            urls.drop_first(),
            urls[0].1,
        )
    }
}

/// Well-formed URL ranges: in order, non-overlapping, non-empty, inside
/// `[from, s.len())`.
pub open spec fn urls_wf(s: Seq<char>, urls: Seq<(int, int)>, from: int) -> bool {
    &&& forall|i: int| 0 <= i < urls.len() ==> from <= (#[trigger] urls[i]).0 < urls[i].1 <= s.len()
    &&& forall|i: int, j: int|
        0 <= i < j < urls.len() ==> (#[trigger] urls[i]).1 <= (#[trigger] urls[j]).0
}

/// `ps` is a gapless, exact decomposition of `[from, to)` into non-empty
/// adjacent ranges.
pub open spec fn is_partition(ps: Seq<(int, int)>, from: int, to: int) -> bool {
    &&& ps.len() == 0 ==> from == to
    &&& ps.len() > 0 ==> ps[0].0 == from && ps[ps.len() - 1].1 == to
    &&& forall|i: int| 0 <= i < ps.len() ==> (#[trigger] ps[i]).0 < ps[i].1
    &&& forall|i: int| 0 <= i && i + 1 < ps.len() ==> (#[trigger] ps[i]).1 == ps[i + 1].0
}

pub proof fn lemma_partition_concat(a: Seq<(int, int)>, b: Seq<(int, int)>, x: int, y: int, z: int)
    requires
        is_partition(a, x, y),
        is_partition(b, y, z),
    ensures
        is_partition(a + b, x, z),
{
    let c = a + b;
    assert forall|i: int| 0 <= i < c.len() implies (#[trigger] c[i]).0 < c[i].1 by {
        if i < a.len() {
            assert(c[i] == a[i]);
        } else {
            assert(c[i] == b[i - a.len()]);
        }
    }
    assert forall|i: int| 0 <= i && i + 1 < c.len() implies (#[trigger] c[i]).1 == c[i + 1].0 by {
        if i + 1 < a.len() {
            assert(c[i] == a[i] && c[i + 1] == a[i + 1]);
        } else if i + 1 == a.len() {
            assert(a.len() > 0 && b.len() > 0);
            assert(c[i] == a[a.len() - 1] && c[i + 1] == b[0]);
        } else {
            assert(c[i] == b[i - a.len()] && c[i + 1] == b[i + 1 - a.len()]);
        }
    }
    if c.len() > 0 {
        if a.len() == 0 {
            assert(c =~= b);
        } else if b.len() == 0 {
            assert(c =~= a);
        } else {
            assert(c[0] == a[0]);
            assert(c[c.len() - 1] == b[b.len() - 1]);
        }
    }
}

/// The delimiter rule decomposes its range exactly.
pub proof fn lemma_split_partition(s: Seq<char>, i: int, j: int)
    requires
        0 <= i <= j <= s.len(),
    ensures
        is_partition(split_spec(s, i, j), i, j),
    decreases j - i,
{
    if i < j {
        if is_split_char(s[i]) {
            lemma_split_partition(s, i + 1, j);
            lemma_partition_concat(seq![(i, i + 1)], split_spec(s, i + 1, j), i, i + 1, j);
        } else {
            lemma_run_end_bounds(s, i, j);
            let e = run_end(s, i, j);
            lemma_split_partition(s, e, j);
            lemma_partition_concat(seq![(i, e)], split_spec(s, e, j), i, e, j);
        }
    }
}

/// Every range of a partition lies inside the covered interval, and the
/// ranges are pairwise ordered and non-overlapping.
pub proof fn lemma_partition_props(ps: Seq<(int, int)>, from: int, to: int)
    requires
        is_partition(ps, from, to),
    ensures
        forall|i: int| 0 <= i < ps.len() ==> from <= (#[trigger] ps[i]).0 && ps[i].1 <= to,
        forall|i: int, j: int|
            0 <= i < j < ps.len() ==> (#[trigger] ps[i]).1 <= (#[trigger] ps[j]).0,
    decreases ps.len(),
{
    if ps.len() > 1 {
        let d = ps.drop_first();
        assert(forall|i: int| 0 <= i < d.len() ==> #[trigger] d[i] == ps[i + 1]);
        assert(is_partition(d, ps[0].1, to));
        lemma_partition_props(d, ps[0].1, to);
        assert forall|i: int| 0 <= i < ps.len() implies from <= (#[trigger] ps[i]).0 && ps[i].1
            <= to by {
            if i == 0 {
                assert(ps[0].1 == d[0].0);
                assert(d[0].1 <= to);
            } else {
                assert(ps[i] == d[i - 1]);
                assert(ps[0].1 <= d[i - 1].0);
            }
        }
        assert forall|i: int, j: int| 0 <= i < j < ps.len() implies (#[trigger] ps[i]).1 <= (
        #[trigger] ps[j]).0 by {
            if i == 0 {
                assert(ps[j] == d[j - 1]);
                assert(ps[0].1 <= d[j - 1].0);
            } else {
                assert(ps[i] == d[i - 1] && ps[j] == d[j - 1]);
            }
        }
    }
}

/// Law: for any well-formed set of atomic ranges, the segmenter's pieces are
/// an exact decomposition of the whole input — concatenating them
/// reconstructs the input, with no gaps, overlaps or empty pieces.
pub proof fn lemma_segment_partition(s: Seq<char>, urls: Seq<(int, int)>, from: int)
    requires
        0 <= from <= s.len(),
        urls_wf(s, urls, from),
    ensures
        is_partition(segment_spec(s, urls, from), from, s.len() as int),
    decreases urls.len(),
{
    if urls.len() == 0 {
        lemma_split_partition(s, from, s.len() as int);
    } else {
        let u = urls[0];
        lemma_split_partition(s, from, u.0);
        let d = urls.drop_first();
        assert(forall|i: int| 0 <= i < d.len() ==> #[trigger] d[i] == urls[i + 1]);
        assert forall|i: int| 0 <= i < d.len() implies u.1 <= (#[trigger] d[i]).0 < d[i].1
            <= s.len() by {
            if i == 0 {
                assert(urls[0].1 <= urls[1].0);
            } else {
                assert(urls[0].1 <= urls[i + 1].0);
            }
        }
        assert(urls_wf(s, d, u.1));
        lemma_segment_partition(s, urls.drop_first(), u.1);
        lemma_partition_concat(split_spec(s, from, u.0), seq![u], from, u.0, u.1);
        lemma_partition_concat(
            split_spec(s, from, u.0) + seq![u],
            segment_spec(s, urls.drop_first(), u.1),
            from,
            u.1,
            s.len() as int,
        );
        assert(segment_spec(s, urls, from) =~= (split_spec(s, from, u.0) + seq![u])
            + segment_spec(s, urls.drop_first(), u.1));
    }
}

/// The character position whose byte offset is `b` (meaningful when `b` is a
/// boundary; unique because byte offsets grow strictly).
pub open spec fn char_at_byte(s: Seq<char>, b: int) -> int {
    choose|k: int| 0 <= k <= s.len() && byte_index(s, k) == b
}

pub proof fn lemma_char_at_byte_unique(s: Seq<char>, k: int, b: int)
    requires
        0 <= k <= s.len(),
        byte_index(s, k) == b,
    ensures
        char_at_byte(s, b) == k,
{
    assert(exists|k2: int| 0 <= k2 <= s.len() && byte_index(s, k2) == b);
    let k2 = char_at_byte(s, b);
    assert(0 <= k2 <= s.len() && byte_index(s, k2) == b);
    if k2 < k {
        lemma_byte_index_mono(s, k2, k);
    } else if k < k2 {
        lemma_byte_index_mono(s, k, k2);
    }
}

/// The URL matches of `s` as character ranges.
pub open spec fn url_char_ranges(s: Seq<char>) -> Seq<(int, int)> {
    url_byte_matches(s).map_values(
        |p: (usize, usize)| (char_at_byte(s, p.0 as int), char_at_byte(s, p.1 as int)),
    )
}

/// The segmenter's result on `s`: URL matches atomic, gaps split by the
/// delimiter rule.
pub open spec fn pieces_of(s: Seq<char>) -> Seq<(int, int)> {
    segment_spec(s, url_char_ranges(s), 0)
}

/// Walk forward from character position `c` (at byte offset `b`) to the
/// character position whose byte offset is `target`.
fn advance_to_byte(chars: &Vec<char>, c: usize, b: usize, target: usize) -> (res: usize)
    requires
        0 <= c <= chars@.len(),
        b == byte_index(chars@, c as int),
        b <= target,
        is_boundary(chars@, target as int),
        target <= byte_index(chars@, chars@.len() as int),
    ensures
        c <= res <= chars@.len(),
        byte_index(chars@, res as int) == target,
{
    let ghost s = chars@;
    let ghost kt: int = choose|k: int| 0 <= k <= s.len() && byte_index(s, k) == target as int;
    let n = chars.len();
    let mut i: usize = c;
    let mut bb: usize = b;
    while bb < target
        invariant
            c <= i <= n,
            n == s.len(),
            chars@ == s,
            bb == byte_index(s, i as int),
            bb <= target,
            0 <= kt <= s.len() && byte_index(s, kt) == target as int,
        decreases target - bb,
    {
        proof {
            if i as int == s.len() as int {
                lemma_byte_index_mono(s, kt, s.len() as int);
                assert(false);
            }
            if kt <= i as int {
                lemma_byte_index_mono(s, kt, i as int);
                assert(false);
            }
            lemma_byte_index_step(s, i as int);
            lemma_byte_index_mono(s, i + 1, kt);
        }
        let w = utf8_width(chars[i]);
        bb = bb + w;
        i = i + 1;
    }
    i
}

/// Convert byte ranges that lie on character boundaries into character
/// ranges.
fn to_char_ranges(chars: &Vec<char>, urls: &Vec<(usize, usize)>) -> (r: Vec<(usize, usize)>)
    requires
        forall|i: int|
            0 <= i < urls@.len() ==> (#[trigger] urls@[i]).0 < urls@[i].1 <= byte_index(
                chars@,
                chars@.len() as int,
            ),
        forall|i: int|
            0 <= i < urls@.len() ==> is_boundary(chars@, (#[trigger] urls@[i]).0 as int)
                && is_boundary(chars@, urls@[i].1 as int),
        forall|i: int, j: int|
            0 <= i < j < urls@.len() ==> (#[trigger] urls@[i]).1 <= (#[trigger] urls@[j]).0,
    ensures
        r@.len() == urls@.len(),
        forall|i: int|
            0 <= i < r@.len() ==> (#[trigger] r@[i]).0 as int == char_at_byte(
                chars@,
                urls@[i].0 as int,
            ) && r@[i].1 as int == char_at_byte(chars@, urls@[i].1 as int),
        urls_wf(chars@, ranges_view(r@), 0),
{
    let ghost s = chars@;
    let mut r: Vec<(usize, usize)> = Vec::new();
    let mut c: usize = 0;
    let mut b: usize = 0;
    proof {
        lemma_byte_index_zero(s);
    }
    let mut j: usize = 0;
    while j < urls.len()
        invariant
            0 <= j <= urls@.len(),
            chars@ == s,
            forall|i: int|
                0 <= i < urls@.len() ==> (#[trigger] urls@[i]).0 < urls@[i].1 <= byte_index(
                    s,
                    s.len() as int,
                ),
            forall|i: int|
                0 <= i < urls@.len() ==> is_boundary(s, (#[trigger] urls@[i]).0 as int)
                    && is_boundary(s, urls@[i].1 as int),
            forall|i: int, j2: int|
                0 <= i < j2 < urls@.len() ==> (#[trigger] urls@[i]).1 <= (#[trigger] urls@[j2]).0,
            0 <= c <= s.len(),
            b == byte_index(s, c as int),
            j > 0 ==> b == urls@[j - 1].1,
            j == 0 ==> b == 0,
            r@.len() == j,
            forall|i: int|
                0 <= i < j ==> byte_index(s, (#[trigger] r@[i]).0 as int) == urls@[i].0 as int
                    && byte_index(s, r@[i].1 as int) == urls@[i].1 as int,
            forall|i: int| 0 <= i < j ==> (#[trigger] r@[i]).0 < r@[i].1 <= s.len(),
            j > 0 ==> r@[j - 1].1 == c,
        decreases urls@.len() - j,
    {
        proof {
            if j > 0 {
                assert(urls@[j - 1].1 <= urls@[j as int].0);
            }
        }
        let (us, ue) = (urls[j].0, urls[j].1);
        let cs = advance_to_byte(chars, c, b, us);
        let ce = advance_to_byte(chars, cs, us, ue);
        proof {
            if cs >= ce {
                lemma_byte_index_mono(s, ce as int, cs as int);
            }
        }
        r.push((cs, ce));
        c = ce;
        b = ue;
        j = j + 1;
    }
    proof {
        assert forall|i: int| 0 <= i < r@.len() implies (#[trigger] r@[i]).0 as int == char_at_byte(
            s,
            urls@[i].0 as int,
        ) && r@[i].1 as int == char_at_byte(s, urls@[i].1 as int) by {
            lemma_char_at_byte_unique(s, r@[i].0 as int, urls@[i].0 as int);
            lemma_char_at_byte_unique(s, r@[i].1 as int, urls@[i].1 as int);
        }
        let rv = ranges_view(r@);
        assert forall|i: int, j2: int| 0 <= i < j2 < rv.len() implies (#[trigger] rv[i]).1 <= (
        #[trigger] rv[j2]).0 by {
            assert(urls@[i].1 <= urls@[j2].0);
            if r@[i].1 > r@[j2].0 {
                lemma_byte_index_mono(s, r@[j2].0 as int, r@[i].1 as int);
            }
        }
        assert(urls_wf(s, rv, 0));
    }
    r
}

/// Segment `text` (whose characters are `chars`) into the ordered pieces of
/// `pieces_of`: URL matches are atomic, everything between them is split at
/// whitespace and delimiters, and the pieces exactly cover the input.
pub(crate) fn segment_text(text: &str, chars: &Vec<char>) -> (r: Vec<(usize, usize)>)
    requires
        chars@ == text@,
    ensures
        ranges_view(r@) == pieces_of(text@),
        urls_wf(text@, url_char_ranges(text@), 0),
        is_partition(ranges_view(r@), 0, text@.len() as int),
{
    let ghost s = text@;
    let urls = find_urls(text);
    let cr = to_char_ranges(chars, &urls);
    proof {
        assert(ranges_view(cr@) =~= url_char_ranges(s));
        lemma_segment_partition(s, url_char_ranges(s), 0);
    }
    let r = segment(chars, &cr);
    r
}

/// First position in `[start, to)` of `chars` holding a split character, or
/// `to` if there is none.
fn find_run_end(chars: &Vec<char>, start: usize, to: usize) -> (e: usize)
    requires
        start <= to <= chars@.len(),
    ensures
        e == run_end(chars@, start as int, to as int),
        start <= e <= to,
{
    let ghost s = chars@;
    let mut i: usize = start;
    while i < to
        invariant
            start <= i <= to <= s.len(),
            chars@ == s,
            run_end(s, start as int, to as int) == run_end(s, i as int, to as int),
        decreases to - i,
    {
        if split_char(chars[i]) {
            proof {
                assert(run_end(s, i as int, to as int) == i as int);
            }
            return i;
        }
        proof {
            assert(run_end(s, i as int, to as int) == run_end(s, i + 1, to as int));
        }
        i = i + 1;
    }
    proof {
        assert(run_end(s, i as int, to as int) == i as int);
    }
    i
}

/// Law: the byte ranges of the pieces of a partition are themselves a
/// partition of the input's bytes — concatenating them reconstructs the
/// input exactly.
pub proof fn lemma_byte_ranges_partition(s: Seq<char>, ps: Seq<(int, int)>)
    requires
        is_partition(ps, 0, s.len() as int),
    ensures
        is_partition(
            ps.map_values(|p: (int, int)| (byte_index(s, p.0), byte_index(s, p.1))),
            0,
            byte_index(s, s.len() as int),
        ),
{
    let bs = ps.map_values(|p: (int, int)| (byte_index(s, p.0), byte_index(s, p.1)));
    lemma_partition_props(ps, 0, s.len() as int);
    lemma_byte_index_zero(s);
    assert forall|i: int| 0 <= i < bs.len() implies (#[trigger] bs[i]).0 < bs[i].1 by {
        lemma_byte_index_mono(s, ps[i].0, ps[i].1);
    }
    if ps.len() > 0 {
        assert(bs[0].0 == byte_index(s, ps[0].0));
        assert(bs[bs.len() - 1].1 == byte_index(s, ps[ps.len() - 1].1));
    }
}

/// Split the range `[from, to)` of `chars` by the delimiter rule, appending
/// the pieces to `out`.
fn split_range(chars: &Vec<char>, from: usize, to: usize, out: &mut Vec<(usize, usize)>)
    requires
        from <= to <= chars@.len(),
    ensures
        ranges_view(final(out)@) == ranges_view(old(out)@) + split_spec(
            chars@,
            from as int,
            to as int,
        ),
{
    let ghost s = chars@;
    let ghost base = ranges_view(old(out)@);
    let mut i: usize = from;
    while i < to
        invariant
            from <= i <= to <= s.len(),
            chars@ == s,
            base + split_spec(s, from as int, to as int) == ranges_view(out@) + split_spec(
                s,
                i as int,
                to as int,
            ),
        decreases to - i,
    {
        let c = chars[i];
        if split_char(c) {
            let ghost before = ranges_view(out@);
            out.push((i, i + 1));
            proof {
                assert(ranges_view(out@) =~= before + seq![(i as int, i + 1)]);
                assert(split_spec(s, i as int, to as int) == seq![(i as int, i + 1)] + split_spec(
                    s,
                    i + 1,
                    to as int,
                ));
                assert(before + (seq![(i as int, i + 1)] + split_spec(s, i + 1, to as int)) =~= (
                before + seq![(i as int, i + 1)]) + split_spec(s, i + 1, to as int));
            }
            i = i + 1;
        } else {
            let e = find_run_end(chars, i, to);
            proof {
                lemma_run_end_bounds(s, i as int, to as int);
            }
            let ghost before = ranges_view(out@);
            out.push((i, e));
            proof {
                assert(ranges_view(out@) =~= before + seq![(i as int, e as int)]);
                assert(split_spec(s, i as int, to as int) == seq![(i as int, e as int)]
                    + split_spec(s, e as int, to as int));
                assert(before + (seq![(i as int, e as int)] + split_spec(s, e as int, to as int))
                    =~= (before + seq![(i as int, e as int)]) + split_spec(s, e as int, to as int));
            }
            i = e;
        }
    }
    proof {
        assert(split_spec(s, i as int, to as int) =~= Seq::<(int, int)>::empty());
        assert(ranges_view(out@) + Seq::<(int, int)>::empty() =~= ranges_view(out@));
    }
}

/// Produce the segmenter's pieces of `chars`, with the given ranges kept
/// atomic.
fn segment(chars: &Vec<char>, urls: &Vec<(usize, usize)>) -> (r: Vec<(usize, usize)>)
    requires
        urls_wf(chars@, ranges_view(urls@), 0),
    ensures
        ranges_view(r@) == segment_spec(chars@, ranges_view(urls@), 0),
{
    let ghost s = chars@;
    let ghost uv = ranges_view(urls@);
    let mut r: Vec<(usize, usize)> = Vec::new();
    let mut prev: usize = 0;
    let mut j: usize = 0;
    proof {
        assert(uv.skip(0) =~= uv);
        assert(ranges_view(r@) =~= Seq::<(int, int)>::empty());
    }
    while j < urls.len()
        invariant
            0 <= j <= urls@.len(),
            uv == ranges_view(urls@),
            urls_wf(s, uv, 0),
            chars@ == s,
            prev <= s.len(),
            j < urls@.len() ==> prev <= urls@[j as int].0,
            j > 0 ==> prev == urls@[j - 1].1,
            segment_spec(s, uv, 0) == ranges_view(r@) + segment_spec(
                s,
                uv.skip(j as int),
                prev as int,
            ),
        decreases urls@.len() - j,
    {
        let (us, ue) = (urls[j].0, urls[j].1);
        let ghost mid = ranges_view(r@);
        split_range(chars, prev, us, &mut r);
        let ghost mid2 = ranges_view(r@);
        r.push((us, ue));
        proof {
            let su = uv.skip(j as int);
            assert(su[0] == uv[j as int]);
            assert(su.drop_first() =~= uv.skip(j + 1));
            assert(segment_spec(s, su, prev as int) == split_spec(s, prev as int, us as int)
                + seq![(us as int, ue as int)] + segment_spec(s, uv.skip(j + 1), ue as int));
            assert(mid2 =~= mid + split_spec(s, prev as int, us as int));
            assert(ranges_view(r@) =~= mid2 + seq![(us as int, ue as int)]);
            assert(mid + (split_spec(s, prev as int, us as int) + seq![(us as int, ue as int)]
                + segment_spec(s, uv.skip(j + 1), ue as int)) =~= ((mid + split_spec(
                s,
                prev as int,
                us as int,
            )) + seq![(us as int, ue as int)]) + segment_spec(s, uv.skip(j + 1), ue as int));
        }
        prev = ue;
        j = j + 1;
    }
    proof {
        assert(uv.skip(j as int) =~= Seq::<(int, int)>::empty());
    }
    let n = chars.len();
    split_range(chars, prev, n, &mut r);
    r
}

} // verus!

//! The dictionary-backed tagger: a mapping from lowercase word forms to the
//! ordered list of (inflection, part-of-speech) pairs registered for them.
//!
//! The dictionary is built once from the lines of dump files: each
//! non-comment line holds at least three tab-separated fields — word form,
//! inflection form, tag label — and registers one pair under the lowercased
//! word form, in file order. A line with fewer than three fields is a fatal
//! load error. Lookup of an unknown word returns the empty list.
use vstd::prelude::*;

use crate::chars::{chars_of, lower_of, lowercase, string_from_chars, subvec};

verus! {

broadcast use vstd::seq_lib::group_seq_lib_default, vstd::seq::group_seq_axioms;

/// The mathematical dictionary: word form, then the registered
/// (inflection, tag) pairs in registration order.
pub type Dict = Seq<(Seq<char>, Seq<(Seq<char>, Seq<char>)>)>;

/// View of a list of (inflection, tag) string pairs.
pub open spec fn tags_view(ts: Seq<(String, String)>) -> Seq<(Seq<char>, Seq<char>)> {
    ts.map_values(|p: (String, String)| (p.0@, p.1@))
}

/// View of a list of lines.
pub open spec fn lines_view(ls: Seq<String>) -> Seq<Seq<char>> {
    ls.map_values(|l: String| l@)
}

/// View of a list of character-vector fields.
pub open spec fn fields_view(fs: Seq<Vec<char>>) -> Seq<Seq<char>> {
    fs.map_values(|f: Vec<char>| f@)
}

/// First position at or after `i` holding a tab, or the length if none.
pub open spec fn first_tab(l: Seq<char>, i: int) -> int
    recommends
        0 <= i <= l.len(),
    decreases l.len() - i,
    when 0 <= i <= l.len()
{
    if i >= l.len() {
        l.len() as int
    } else if l[i] == '\t' {
        i
    } else {
        first_tab(l, i + 1)
    }
}

pub proof fn lemma_first_tab_bounds(l: Seq<char>, i: int)
    requires
        0 <= i <= l.len(),
    ensures
        i <= first_tab(l, i) <= l.len(),
    decreases l.len() - i,
{
    if i < l.len() && l[i] != '\t' {
        lemma_first_tab_bounds(l, i + 1);
    }
}

/// The tab-separated fields of `l` from position `i` on, as `split('\t')`
/// produces them: always at least one field, empty fields kept.
pub open spec fn tab_fields_from(l: Seq<char>, i: int) -> Seq<Seq<char>>
    recommends
        0 <= i <= l.len(),
    decreases l.len() - i,
    when 0 <= i <= l.len()
{
    let t = first_tab(l, i);
    if i <= t && t < l.len() {
        seq![l.subrange(i, t)] + tab_fields_from(l, t + 1)
    } else {
        seq![l.subrange(i, l.len() as int)]
    }
}

/// The tab-separated fields of a whole line.
pub open spec fn tab_fields(l: Seq<char>) -> Seq<Seq<char>> {
    tab_fields_from(l, 0)
}

/// A comment line: starts with `#` and contributes nothing.
pub open spec fn is_comment(l: Seq<char>) -> bool {
    l.len() > 0 && l[0] == '#'
}

/// Register one (inflection, tag) pair under word form `w`: appended to the
/// first entry with that word, or to a fresh entry at the end.
pub open spec fn dict_add(d: Dict, w: Seq<char>, inf: Seq<char>, tg: Seq<char>) -> Dict
    decreases d.len(),
{
    if d.len() == 0 {
        seq![(w, seq![(inf, tg)])]
    } else if d[0].0 == w {
        seq![(d[0].0, d[0].1.push((inf, tg)))] + d.drop_first()
    } else {
        seq![d[0]] + dict_add(d.drop_first(), w, inf, tg)
    }
}

/// What one dump line does to the dictionary: comments are skipped, a line
/// with fewer than three fields is a fatal error, any other line registers
/// its pair under the lowercased first field.
pub open spec fn line_step(d: Dict, l: Seq<char>) -> Option<Dict> {
    if is_comment(l) {
        Some(d)
    } else {
        let f = tab_fields(l);
        if f.len() < 3 {
            None
        } else {
            Some(dict_add(d, lower_of(f[0]), f[1], f[2]))
        }
    }
}

/// The dictionary built from the given lines in order, or `None` if some
/// line is malformed.
pub open spec fn dict_of_lines(lines: Seq<Seq<char>>) -> Option<Dict>
    decreases lines.len(),
{
    if lines.len() == 0 {
        Some(Seq::empty())
    } else {
        match dict_of_lines(lines.drop_last()) {
            Option::None => Option::None,
            Option::Some(d) => line_step(d, lines.last()),
        }
    }
}

/// The pairs registered for word form `w`: those of the first entry with
/// that word, or the empty list.
pub open spec fn lookup_spec(d: Dict, w: Seq<char>) -> Seq<(Seq<char>, Seq<char>)>
    decreases d.len(),
{
    if d.len() == 0 {
        Seq::empty()
    } else if d[0].0 == w {
        d[0].1
    } else {
        lookup_spec(d.drop_first(), w)
    }
}

/// Law: a comment line contributes no dictionary entries.
pub proof fn lemma_comment_line_skipped(d: Dict, l: Seq<char>)
    requires
        is_comment(l),
    ensures
        line_step(d, l) == Some(d),
{
}

/// A malformed dump line: the index of the first line with fewer than three
/// tab-separated fields.
#[derive(Debug, Clone, Copy, PartialEq, Eq)]
pub struct LoadError {
    pub line: usize,
}

/// The word-to-tags dictionary.
pub struct Tagger {
    entries: Vec<(Vec<char>, Vec<(String, String)>)>,
}

/// The dictionary a list of entries stands for.
pub open spec fn entries_dict(es: Seq<(Vec<char>, Vec<(String, String)>)>) -> Dict {
    Seq::new(es.len(), |i: int| (es[i].0@, tags_view(es[i].1@)))
}

impl View for Tagger {
    type V = Dict;

    closed spec fn view(&self) -> Dict {
        entries_dict(self.entries@)
    }
}

proof fn lemma_dict_add_found(d: Dict, w: Seq<char>, inf: Seq<char>, tg: Seq<char>, k: int)
    requires
        0 <= k < d.len(),
        d[k].0 == w,
        forall|i: int| 0 <= i < k ==> (#[trigger] d[i]).0 != w,
    ensures
        dict_add(d, w, inf, tg) =~= d.update(k, (d[k].0, d[k].1.push((inf, tg)))),
    decreases d.len(),
{
    if k == 0 {
        assert(dict_add(d, w, inf, tg) =~= d.update(0, (d[0].0, d[0].1.push((inf, tg)))));
    } else {
        let dd = d.drop_first();
        assert(forall|i: int| 0 <= i < k - 1 ==> (#[trigger] dd[i]).0 == d[i + 1].0);
        lemma_dict_add_found(dd, w, inf, tg, k - 1);
        assert(dict_add(d, w, inf, tg) =~= d.update(k, (d[k].0, d[k].1.push((inf, tg)))));
    }
}

proof fn lemma_dict_add_new(d: Dict, w: Seq<char>, inf: Seq<char>, tg: Seq<char>)
    requires
        forall|i: int| 0 <= i < d.len() ==> (#[trigger] d[i]).0 != w,
    ensures
        dict_add(d, w, inf, tg) =~= d.push((w, seq![(inf, tg)])),
    decreases d.len(),
{
    if d.len() > 0 {
        lemma_dict_add_new(d.drop_first(), w, inf, tg);
        assert(dict_add(d, w, inf, tg) =~= d.push((w, seq![(inf, tg)])));
    }
}

proof fn lemma_lookup_found(d: Dict, w: Seq<char>, k: int)
    requires
        0 <= k < d.len(),
        d[k].0 == w,
        forall|i: int| 0 <= i < k ==> (#[trigger] d[i]).0 != w,
    ensures
        lookup_spec(d, w) == d[k].1,
    decreases d.len(),
{
    if k > 0 {
        let dd = d.drop_first();
        assert(forall|i: int| 0 <= i < k - 1 ==> (#[trigger] dd[i]).0 == d[i + 1].0);
        lemma_lookup_found(dd, w, k - 1);
    }
}

proof fn lemma_lookup_none(d: Dict, w: Seq<char>)
    requires
        forall|i: int| 0 <= i < d.len() ==> (#[trigger] d[i]).0 != w,
    ensures
        lookup_spec(d, w) == Seq::<(Seq<char>, Seq<char>)>::empty(),
    decreases d.len(),
{
    if d.len() > 0 {
        lemma_lookup_none(d.drop_first(), w);
    }
}

proof fn lemma_dict_none_from(lines: Seq<Seq<char>>, j: int)
    requires
        0 <= j <= lines.len(),
        dict_of_lines(lines.take(j)) is None,
    ensures
        dict_of_lines(lines) is None,
    decreases lines.len() - j,
{
    if j == lines.len() {
        assert(lines.take(j) =~= lines);
    } else {
        assert(lines.take(j + 1).drop_last() =~= lines.take(j));
        assert(lines.take(j + 1).last() == lines[j]);
        lemma_dict_none_from(lines, j + 1);
    }
}

/// First position of a tab in `l` at or after `from`, or the length.
fn find_tab(l: &Vec<char>, from: usize) -> (t: usize)
    requires
        from <= l@.len(),
    ensures
        t as int == first_tab(l@, from as int),
        from <= t <= l@.len(),
{
    let ghost s = l@;
    let n = l.len();
    let mut i: usize = from;
    while i < n
        invariant
            from <= i <= n,
            n == s.len(),
            l@ == s,
            first_tab(s, from as int) == first_tab(s, i as int),
        decreases n - i,
    {
        if l[i] == '\t' {
            proof {
                assert(first_tab(s, i as int) == i as int);
            }
            return i;
        }
        proof {
            assert(first_tab(s, i as int) == first_tab(s, i + 1));
        }
        i = i + 1;
    }
    proof {
        assert(first_tab(s, i as int) == i as int);
    }
    i
}

/// The tab-separated fields of a line, as `split('\t')` yields them.
fn tab_split(l: &Vec<char>) -> (r: Vec<Vec<char>>)
    ensures
        fields_view(r@) == tab_fields(l@),
{
    let ghost s = l@;
    let n = l.len();
    let mut r: Vec<Vec<char>> = Vec::new();
    let mut i: usize = 0;
    loop
        invariant_except_break
            0 <= i <= n,
            n == s.len(),
            l@ == s,
            tab_fields(s) == fields_view(r@) + tab_fields_from(s, i as int),
        ensures
            fields_view(r@) == tab_fields(s),
        decreases n - i,
    {
        let t = find_tab(l, i);
        let f = subvec(l, i, t);
        let ghost before = fields_view(r@);
        r.push(f);
        proof {
            assert(fields_view(r@) =~= before + seq![s.subrange(i as int, t as int)]);
        }
        if t == n {
            proof {
                assert(tab_fields_from(s, i as int) =~= seq![s.subrange(i as int, n as int)]);
                assert(fields_view(r@) =~= tab_fields(s));
            }
            break ;
        }
        proof {
            assert(tab_fields_from(s, i as int) == seq![s.subrange(i as int, t as int)]
                + tab_fields_from(s, t + 1));
            assert(before + (seq![s.subrange(i as int, t as int)] + tab_fields_from(s, t + 1)) =~= (
            before + seq![s.subrange(i as int, t as int)]) + tab_fields_from(s, t + 1));
        }
        i = t + 1;
    }
    r
}

/// Character-for-character equality of two character vectors.
fn vec_char_eq(a: &Vec<char>, b: &Vec<char>) -> (r: bool)
    ensures
        r == (a@ == b@),
{
    if a.len() != b.len() {
        return false;
    }
    let n = a.len();
    let mut i: usize = 0;
    while i < n
        invariant
            0 <= i <= n,
            n == a@.len() == b@.len(),
            forall|j: int| 0 <= j < i ==> a@[j] == b@[j],
        decreases n - i,
    {
        if a[i] != b[i] {
            return false;
        }
        i = i + 1;
    }
    proof {
        assert(a@ =~= b@);
    }
    true
}

/// Index of the first entry registered under word `w`, if any.
fn find_word(entries: &Vec<(Vec<char>, Vec<(String, String)>)>, w: &Vec<char>) -> (res: Option<
    usize,
>)
    ensures
        res matches Some(k) ==> k < entries@.len() && entries@[k as int].0@ == w@ && forall|i: int|
            0 <= i < k ==> (#[trigger] entries@[i]).0@ != w@,
        res is None ==> forall|i: int| 0 <= i < entries@.len() ==> (#[trigger] entries@[i]).0@
            != w@,
{
    let n = entries.len();
    let mut k: usize = 0;
    while k < n
        invariant
            0 <= k <= n,
            n == entries@.len(),
            forall|i: int| 0 <= i < k ==> (#[trigger] entries@[i]).0@ != w@,
        decreases n - k,
    {
        if vec_char_eq(&entries[k].0, w) {
            return Some(k);
        }
        k = k + 1;
    }
    None
}

/// Copy a list of (inflection, tag) string pairs.
fn clone_tags(ts: &Vec<(String, String)>) -> (r: Vec<(String, String)>)
    ensures
        r@ == ts@,
{
    let n = ts.len();
    let mut r: Vec<(String, String)> = Vec::new();
    let mut i: usize = 0;
    while i < n
        invariant
            0 <= i <= n,
            n == ts@.len(),
            r@ == ts@.take(i as int),
        decreases n - i,
    {
        let a = ts[i].0.clone();
        let b = ts[i].1.clone();
        r.push((a, b));
        proof {
            assert((a, b) == ts@[i as int]);
            assert(ts@.take(i + 1) =~= ts@.take(i as int).push(ts@[i as int]));
        }
        i = i + 1;
    }
    proof {
        assert(ts@.take(n as int) =~= ts@);
    }
    r
}

impl Tagger {
    /// Build the dictionary from the dump lines, in order. Succeeds exactly
    /// when every non-comment line has at least three tab-separated fields;
    /// otherwise reports the first malformed line and no dictionary is
    /// produced.
    pub fn from_lines(lines: &Vec<String>) -> (r: Result<Tagger, LoadError>)
        ensures
            r is Ok <==> dict_of_lines(lines_view(lines@)) is Some,
            r matches Ok(t) ==> Some(t@) == dict_of_lines(lines_view(lines@)),
            r matches Err(e) ==> e.line < lines@.len() && dict_of_lines(
                lines_view(lines@).take(e.line as int),
            ) is Some && line_step(
                dict_of_lines(lines_view(lines@).take(e.line as int)).unwrap(),
                lines_view(lines@)[e.line as int],
            ) is None,
    {
        let ghost lv = lines_view(lines@);
        let n = lines.len();
        let mut entries: Vec<(Vec<char>, Vec<(String, String)>)> = Vec::new();
        let mut j: usize = 0;
        proof {
            assert(lv.take(0) =~= Seq::<Seq<char>>::empty());
            assert(entries_dict(entries@) =~= Seq::empty());
        }
        while j < n
            invariant
                0 <= j <= n,
                n == lines@.len(),
                lv == lines_view(lines@),
                dict_of_lines(lv.take(j as int)) == Some(entries_dict(entries@)),
            decreases n - j,
        {
            let lc = chars_of(lines[j].as_str());
            proof {
                assert(lv[j as int] == lines@[j as int]@);
                assert(lv.take(j + 1).drop_last() =~= lv.take(j as int));
                assert(lv.take(j + 1).last() == lv[j as int]);
            }
            let is_com = lc.len() > 0 && {
                let c0 = lc[0];
                c0 == '#'
            };
            if !is_com {
                let fields = tab_split(&lc);
                if fields.len() < 3 {
                    proof {
                        assert(tab_fields(lv[j as int]).len() < 3) by {
                            assert(fields_view(fields@).len() == fields@.len());
                        }
                        assert(line_step(entries_dict(entries@), lv[j as int]) is None);
                        assert(dict_of_lines(lv.take(j + 1)) is None);
                        lemma_dict_none_from(lv, j + 1);
                    }
                    return Err(LoadError { line: j });
                }
                let f0 = string_from_chars(&fields[0]);
                let low = lowercase(f0.as_str());
                let key = chars_of(low.as_str());
                let inf = string_from_chars(&fields[1]);
                let tg = string_from_chars(&fields[2]);
                proof {
                    assert(fields_view(fields@)[0] == fields@[0]@);
                    assert(fields_view(fields@)[1] == fields@[1]@);
                    assert(fields_view(fields@)[2] == fields@[2]@);
                    assert(key@ == lower_of(tab_fields(lv[j as int])[0]));
                }
                let ghost d = entries_dict(entries@);
                let ghost es0 = entries@;
                let ghost w = key@;
                let found = find_word(&entries, &key);
                match found {
                    Some(k) => {
                        let pair = entries.remove(k);
                        let wordv = pair.0;
                        let mut tagsv = pair.1;
                        tagsv.push((inf, tg));
                        entries.insert(k, (wordv, tagsv));
                        proof {
                            assert(d[k as int].0 == w);
                            assert(forall|i: int| 0 <= i < k ==> (#[trigger] d[i]).0 != w);
                            lemma_dict_add_found(d, w, inf@, tg@, k as int);
                            assert(entries@ =~= es0.update(k as int, (wordv, tagsv)));
                            assert(tags_view(tagsv@) =~= d[k as int].1.push((inf@, tg@)));
                            assert(entries_dict(entries@) =~= dict_add(d, w, inf@, tg@));
                        }
                    },
                    None => {
                        let mut tv: Vec<(String, String)> = Vec::new();
                        tv.push((inf, tg));
                        entries.push((key, tv));
                        proof {
                            assert(forall|i: int|
                                0 <= i < d.len() ==> (#[trigger] d[i]).0 != w);
                            lemma_dict_add_new(d, w, inf@, tg@);
                            assert(tags_view(tv@) =~= seq![(inf@, tg@)]);
                            assert(entries_dict(entries@) =~= d.push((w, seq![(inf@, tg@)])));
                        }
                    },
                }
            }
            j = j + 1;
        }
        proof {
            assert(lv.take(n as int) =~= lv);
        }
        Ok(Tagger { entries })
    }

    /// The registered (inflection, tag) pairs for the exact word form
    /// `word`: the entry's list in registration order, or the empty list for
    /// an unknown word — never an error.
    pub fn get_tags(&self, word: &str) -> (r: Vec<(String, String)>)
        ensures
            tags_view(r@) == lookup_spec(self@, word@),
    {
        let w = chars_of(word);
        let found = find_word(&self.entries, &w);
        match found {
            Some(k) => {
                proof {
                    assert(self@[k as int].0 == w@);
                    assert(forall|i: int| 0 <= i < k ==> (#[trigger] self@[i]).0 != w@);
                    lemma_lookup_found(self@, w@, k as int);
                }
                clone_tags(&self.entries[k].1)
            },
            None => {
                proof {
                    assert(forall|i: int|
                        0 <= i < self@.len() ==> (#[trigger] self@[i]).0 != w@);
                    lemma_lookup_none(self@, w@);
                }
                Vec::new()
            },
        }
    }
}

} // verus!

//! Character classes, UTF-8 byte accounting, and whitespace trimming.
//!
//! All segmentation logic works on a `Vec<char>` copy of the input; byte
//! offsets are recovered from `vstd`'s UTF-8 encoding model (`encode_utf8`),
//! which is also how `vstd` specifies `str::len`.
use vstd::prelude::*;
use vstd::utf8::{char_is_scalar, encode_scalar, encode_utf8, is_scalar};

verus! {

broadcast use vstd::seq_lib::group_seq_lib_default, vstd::seq::group_seq_axioms;

/// The Unicode `White_Space` code points, the set `char::is_whitespace`
/// recognises; whitespace separates tokens and is trimmed from their text.
pub open spec fn is_space_char(c: char) -> bool {
    ||| c == '\u{0009}' || c == '\u{000A}' || c == '\u{000B}' || c == '\u{000C}'
    ||| c == '\u{000D}' || c == ' ' || c == '\u{0085}' || c == '\u{00A0}'
    ||| c == '\u{1680}' || (0x2000 <= (c as u32) && (c as u32) <= 0x200A)
    ||| c == '\u{2028}' || c == '\u{2029}' || c == '\u{202F}' || c == '\u{205F}'
    ||| c == '\u{3000}'
}

/// The fixed delimiter set: each of these characters becomes a one-character
/// segment of its own.
pub open spec fn is_delim_char(c: char) -> bool {
    ||| c == '\'' || c == '\u{2019}' || c == '`' || c == '\u{00B4}' || c == '\u{2018}'
    ||| c == ']' || c == ',' || c == '.' || c == ':' || c == '!' || c == '?'
    ||| c == '/' || c == '\\' || c == '(' || c == ')' || c == '<' || c == '='
    ||| c == '>' || c == '\u{201E}' || c == '\u{201C}' || c == '\u{201D}' || c == '"'
    ||| c == '+' || c == '#' || c == '\u{2026}' || c == '*'
}

/// A split point of the segmenter: whitespace or a delimiter.
pub open spec fn is_split_char(c: char) -> bool {
    is_space_char(c) || is_delim_char(c)
}

pub fn space_char(c: char) -> (b: bool)
    ensures
        b == is_space_char(c),
{
    c == '\u{0009}' || c == '\u{000A}' || c == '\u{000B}' || c == '\u{000C}' || c == '\u{000D}'
        || c == ' ' || c == '\u{0085}' || c == '\u{00A0}' || c == '\u{1680}' || (0x2000 <= (
    c as u32) && (c as u32) <= 0x200A) || c == '\u{2028}' || c == '\u{2029}' || c == '\u{202F}' || c
        == '\u{205F}' || c == '\u{3000}'
}

pub fn delim_char(c: char) -> (b: bool)
    ensures
        b == is_delim_char(c),
{
    c == '\'' || c == '\u{2019}' || c == '`' || c == '\u{00B4}' || c == '\u{2018}' || c == ']' || c
        == ',' || c == '.' || c == ':' || c == '!' || c == '?' || c == '/' || c == '\\' || c == '('
        || c == ')' || c == '<' || c == '=' || c == '>' || c == '\u{201E}' || c == '\u{201C}' || c
        == '\u{201D}' || c == '"' || c == '+' || c == '#' || c == '\u{2026}' || c == '*'
}

pub fn split_char(c: char) -> (b: bool)
    ensures
        b == is_split_char(c),
{
    space_char(c) || delim_char(c)
}

/// Number of bytes of the UTF-8 encoding of one character.
pub open spec fn char_width(c: char) -> int {
    encode_scalar(c as u32).len() as int
}

/// Byte offset of character position `k`: the length of the UTF-8 encoding
/// of the first `k` characters.
pub open spec fn byte_index(s: Seq<char>, k: int) -> int
    recommends
        0 <= k <= s.len(),
{
    encode_utf8(s.take(k)).len() as int
}

pub proof fn lemma_char_width_bounds(c: char)
    ensures
        1 <= char_width(c) <= 4,
        (c as u32) < 0x80 ==> char_width(c) == 1,
{
    broadcast use char_is_scalar;

}

pub proof fn lemma_encode_push(t: Seq<char>, c: char)
    ensures
        encode_utf8(t.push(c)) == encode_utf8(t) + encode_scalar(c as u32),
    decreases t.len(),
{
    broadcast use char_is_scalar;

    let p = t.push(c);
    if t.len() == 0 {
        assert(p[0] == c);
        assert(p.drop_first() =~= Seq::<char>::empty());
        assert(encode_utf8(p) == encode_scalar(c as u32) + encode_utf8(p.drop_first()));
        assert(encode_utf8(t) =~= Seq::<u8>::empty());
        assert(encode_utf8(p) =~= encode_utf8(t) + encode_scalar(c as u32));
    } else {
        lemma_encode_push(t.drop_first(), c);
        assert(p[0] == t[0]);
        assert(p.drop_first() =~= t.drop_first().push(c));
        assert(encode_utf8(p) == encode_scalar(t[0] as u32) + encode_utf8(p.drop_first()));
        assert(encode_utf8(t) == encode_scalar(t[0] as u32) + encode_utf8(t.drop_first()));
        assert(encode_utf8(t) + encode_scalar(c as u32) =~= encode_scalar(t[0] as u32) + (
        encode_utf8(t.drop_first()) + encode_scalar(c as u32)));
    }
}

pub proof fn lemma_byte_index_step(s: Seq<char>, k: int)
    requires
        0 <= k < s.len(),
    ensures
        byte_index(s, k + 1) == byte_index(s, k) + char_width(s[k]),
{
    assert(s.take(k + 1) =~= s.take(k).push(s[k]));
    lemma_encode_push(s.take(k), s[k]);
}

pub proof fn lemma_byte_index_mono(s: Seq<char>, j: int, k: int)
    requires
        0 <= j <= k <= s.len(),
    ensures
        byte_index(s, j) + (k - j) <= byte_index(s, k),
        byte_index(s, k) <= byte_index(s, j) + 4 * (k - j),
    decreases k - j,
{
    if j < k {
        lemma_byte_index_mono(s, j, k - 1);
        lemma_byte_index_step(s, k - 1);
        lemma_char_width_bounds(s[k - 1]);
    }
}

pub proof fn lemma_byte_index_zero(s: Seq<char>)
    ensures
        byte_index(s, 0) == 0,
        byte_index(s, s.len() as int) == encode_utf8(s).len(),
{
    assert(s.take(0) =~= Seq::<char>::empty());
    assert(s.take(s.len() as int) =~= s);
}

/// Over a block of ASCII characters the byte span is exactly the char span.
pub proof fn lemma_byte_index_ascii(s: Seq<char>, j: int, k: int)
    requires
        0 <= j <= k <= s.len(),
        forall|i: int| j <= i < k ==> (#[trigger] s[i] as u32) < 0x80,
    ensures
        byte_index(s, k) == byte_index(s, j) + (k - j),
    decreases k - j,
{
    if j < k {
        lemma_byte_index_ascii(s, j, k - 1);
        lemma_byte_index_step(s, k - 1);
        lemma_char_width_bounds(s[k - 1]);
    }
}

/// Exact byte width of one character's UTF-8 encoding.
pub fn utf8_width(c: char) -> (w: usize)
    ensures
        w == char_width(c),
{
    proof {
        broadcast use char_is_scalar;

        assert(is_scalar(c as u32));
    }
    let u = c as u32;
    if u < 0x80 {
        1
    } else if u < 0x800 {
        2
    } else if u < 0x10000 {
        3
    } else {
        4
    }
}

/// The characters of a string, as a vector; the view of a `str` is exactly
/// its character sequence.
pub fn chars_of(s: &str) -> (r: Vec<char>)
    ensures
        r@ == s@,
{
    let n = s.unicode_len();
    let mut r: Vec<char> = Vec::new();
    let mut i: usize = 0;
    while i < n
        invariant
            n == s@.len(),
            0 <= i <= n,
            r@ == s@.take(i as int),
        decreases n - i,
    {
        let c = s.get_char(i);
        r.push(c);
        proof {
            assert(s@.take(i + 1) =~= s@.take(i as int).push(s@[i as int]));
        }
        i = i + 1;
    }
    proof {
        assert(s@.take(n as int) =~= s@);
    }
    r
}

/// Byte offset of character position `b`, walked forward from position `a`
/// (whose byte offset is `cb`); `total` is the byte length of the whole text.
pub(crate) fn bytes_to(chars: &Vec<char>, a: usize, b: usize, cb: usize, total: usize) -> (r:
    usize)
    requires
        a <= b <= chars@.len(),
        cb == byte_index(chars@, a as int),
        total == byte_index(chars@, chars@.len() as int),
    ensures
        r == byte_index(chars@, b as int),
{
    let ghost s = chars@;
    let mut i: usize = a;
    let mut r: usize = cb;
    while i < b
        invariant
            a <= i <= b <= s.len(),
            chars@ == s,
            r == byte_index(s, i as int),
            total == byte_index(s, s.len() as int),
        decreases b - i,
    {
        proof {
            lemma_byte_index_step(s, i as int);
            lemma_byte_index_mono(s, i + 1, s.len() as int);
        }
        let w = utf8_width(chars[i]);
        r = r + w;
        i = i + 1;
    }
    r
}

/// The characters of the range `[a, b)` of `v`, as a new vector.
pub fn subvec(v: &Vec<char>, a: usize, b: usize) -> (r: Vec<char>)
    requires
        a <= b <= v@.len(),
    ensures
        r@ == v@.subrange(a as int, b as int),
{
    let mut r: Vec<char> = Vec::new();
    let mut i: usize = a;
    while i < b
        invariant
            a <= i <= b <= v@.len(),
            r@ == v@.subrange(a as int, i as int),
        decreases b - i,
    {
        r.push(v[i]);
        proof {
            assert(v@.subrange(a as int, i + 1) =~= v@.subrange(a as int, i as int).push(
                v@[i as int],
            ));
        }
        i = i + 1;
    }
    r
}

/// Relies on `String`'s `FromIterator` impl (`collect` over the vector's
/// characters): the collected string consists of exactly those characters in
/// order.
#[verifier::external_body]
pub(crate) fn string_from_chars(v: &Vec<char>) -> (r: String)
    ensures
        r@ == v@,
{
    v.iter().collect()
}

/// What `str::to_lowercase` returns: full Unicode lowercasing, a function of
/// the character sequence alone.
pub uninterp spec fn lower_of(s: Seq<char>) -> Seq<char>;

/// Relies on `str::to_lowercase`: the result depends on the characters alone,
/// and an empty string stays empty.
#[verifier::external_body]
pub(crate) fn lowercase(s: &str) -> (r: String)
    ensures
        r@ == lower_of(s@),
        s@.len() == 0 ==> r@.len() == 0,
{
    s.to_lowercase()
}

/// First position at or after `i` (up to `j`) that is not whitespace.
pub open spec fn trim_start(s: Seq<char>, i: int, j: int) -> int
    recommends
        0 <= i <= j <= s.len(),
    decreases j - i,
{
    if i >= j {
        j
    } else if is_space_char(s[i]) {
        trim_start(s, i + 1, j)
    } else {
        i
    }
}

/// Last position at or before `j` (down to `i`) with no whitespace after it.
pub open spec fn trim_end(s: Seq<char>, i: int, j: int) -> int
    recommends
        0 <= i <= j <= s.len(),
    decreases j - i,
{
    if j <= i {
        i
    } else if is_space_char(s[j - 1]) {
        trim_end(s, i, j - 1)
    } else {
        j
    }
}

/// The content of the range `[p.0, p.1)` of `s` with surrounding whitespace
/// removed, as `str::trim` would produce it.
pub open spec fn trimmed(s: Seq<char>, p: (int, int)) -> Seq<char>
    recommends
        0 <= p.0 <= p.1 <= s.len(),
{
    let a = trim_start(s, p.0, p.1);
    s.subrange(a, trim_end(s, a, p.1))
}

} // verus!

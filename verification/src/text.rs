//! Character-level text primitives: whitespace, trimming, case folding,
//! substring search and edits addressed by character index.
use vstd::prelude::*;

verus! {

// ---------------------------------------------------------------------------
// Characters
// ---------------------------------------------------------------------------

/// The Unicode `White_Space` property, which is what `char::is_whitespace` tests.
pub open spec fn is_ws(c: char) -> bool {
    ||| ('\t' <= c && c <= '\r')
    ||| c == ' '
    ||| c == '\u{85}'
    ||| c == '\u{a0}'
    ||| c == '\u{1680}'
    ||| ('\u{2000}' <= c && c <= '\u{200a}')
    ||| c == '\u{2028}'
    ||| c == '\u{2029}'
    ||| c == '\u{202f}'
    ||| c == '\u{205f}'
    ||| c == '\u{3000}'
}

/// Whether `c` is a whitespace character.
pub fn is_whitespace(c: char) -> (b: bool)
    ensures
        b == is_ws(c),
{
    ('\t' <= c && c <= '\r') || c == ' ' || c == '\u{85}' || c == '\u{a0}' || c == '\u{1680}'
        || ('\u{2000}' <= c && c <= '\u{200a}') || c == '\u{2028}' || c == '\u{2029}' || c
        == '\u{202f}' || c == '\u{205f}' || c == '\u{3000}'
}

/// ASCII decimal digit.
pub open spec fn is_digit(c: char) -> bool {
    '0' <= c && c <= '9'
}

/// ASCII lower-casing of one character.
pub open spec fn lower_char(c: char) -> char {
    if 'A' <= c && c <= 'Z' {
        ((c as u32) + 32) as char
    } else {
        c
    }
}

/// ASCII lower-casing of a character sequence.
pub open spec fn lower(s: Seq<char>) -> Seq<char> {
    Seq::new(s.len(), |i: int| lower_char(s[i]))
}

/// Lower-cases one ASCII letter and leaves every other character alone.
pub fn to_ascii_lower(c: char) -> (r: char)
    ensures
        r == lower_char(c),
{
    if 'A' <= c && c <= 'Z' {
        let b: u8 = c as u8;
        assert(b as u32 == c as u32);
        let r = (b + 32) as char;
        assert(r as u32 == (c as u32) + 32);
        r
    } else {
        c
    }
}

// ---------------------------------------------------------------------------
// Converting between `str` and characters
// ---------------------------------------------------------------------------

/// The characters of `s`, in order.
pub fn chars_of(s: &str) -> (v: Vec<char>)
    ensures
        v@ == s@,
{
    let mut v: Vec<char> = Vec::new();
    for c in it: s.chars()
        invariant
            v@ == it.seq().take(it.index() as int),
            it.seq() == s@,
    {
        v.push(c);
    }
    v
}

/// Appends one character to a `String` (`String::push`).
#[verifier::external_body]
pub(crate) fn push_char(s: &mut String, c: char)
    ensures
        final(s)@ == old(s)@.push(c),
{
    s.push(c);
}

/// The string made of the characters `v[lo..hi]`.
pub fn string_of(v: &[char], lo: usize, hi: usize) -> (s: String)
    requires
        lo <= hi <= v@.len(),
    ensures
        s@ == v@.subrange(lo as int, hi as int),
{
    let mut s = String::new();
    let mut i = lo;
    while i < hi
        invariant
            lo <= i <= hi <= v@.len(),
            s@ == v@.subrange(lo as int, i as int),
        decreases hi - i,
    {
        push_char(&mut s, v[i]);
        assert(v@.subrange(lo as int, i + 1) == v@.subrange(lo as int, i as int).push(v@[i as int]));
        i += 1;
    }
    s
}

/// A copy of the characters `v[lo..hi]`.
pub fn sub_vec(v: &[char], lo: usize, hi: usize) -> (r: Vec<char>)
    requires
        lo <= hi <= v@.len(),
    ensures
        r@ == v@.subrange(lo as int, hi as int),
{
    let mut r: Vec<char> = Vec::new();
    let mut i = lo;
    while i < hi
        invariant
            lo <= i <= hi <= v@.len(),
            r@ == v@.subrange(lo as int, i as int),
        decreases hi - i,
    {
        r.push(v[i]);
        assert(v@.subrange(lo as int, i + 1) == v@.subrange(lo as int, i as int).push(v@[i as int]));
        i += 1;
    }
    r
}

/// The characters of `s` lower-cased (ASCII letters only).
pub fn lower_chars(s: &str) -> (v: Vec<char>)
    ensures
        v@ == lower(s@),
{
    let src = chars_of(s);
    let mut v: Vec<char> = Vec::new();
    let mut i: usize = 0;
    while i < src.len()
        invariant
            src@ == s@,
            i <= src@.len(),
            v@ == lower(s@).take(i as int),
        decreases src@.len() - i,
    {
        v.push(to_ascii_lower(src[i]));
        assert(lower(s@).take(i + 1) == lower(s@).take(i as int).push(lower_char(src@[i as int])));
        i += 1;
    }
    assert(lower(s@).take(i as int) == lower(s@));
    v
}

// ---------------------------------------------------------------------------
// Trimming
// ---------------------------------------------------------------------------

/// The first index at or after `i` (and before `hi`) whose character does not satisfy `p`,
/// or `hi` when there is none.
pub open spec fn skip_while(s: Seq<char>, i: int, hi: int, p: spec_fn(char) -> bool) -> int
    decreases hi - i,
{
    if 0 <= i < hi && hi <= s.len() && p(s[i]) {
        skip_while(s, i + 1, hi, p)
    } else {
        i
    }
}

/// The last end index at or before `j` (and after `lo`) such that the character before it
/// does not satisfy `p`, or `lo` when there is none.
pub open spec fn back_while(s: Seq<char>, lo: int, j: int, p: spec_fn(char) -> bool) -> int
    decreases j - lo,
{
    if 0 <= lo < j && j <= s.len() && p(s[j - 1]) {
        back_while(s, lo, j - 1, p)
    } else {
        j
    }
}

/// The whitespace predicate as a value.
pub open spec fn ws_pred() -> spec_fn(char) -> bool {
    |c: char| is_ws(c)
}

/// `skip_while` over whitespace.
pub open spec fn skip_ws(s: Seq<char>, i: int, hi: int) -> int {
    skip_while(s, i, hi, ws_pred())
}

/// `back_while` over whitespace.
pub open spec fn back_ws(s: Seq<char>, lo: int, j: int) -> int {
    back_while(s, lo, j, ws_pred())
}

/// `s` with leading whitespace removed (`str::trim_start`).
pub open spec fn trim_start(s: Seq<char>) -> Seq<char> {
    s.subrange(skip_ws(s, 0, s.len() as int), s.len() as int)
}

/// `s` with trailing whitespace removed (`str::trim_end`).
pub open spec fn trim_end(s: Seq<char>) -> Seq<char> {
    s.subrange(0, back_ws(s, 0, s.len() as int))
}

/// `s` with leading and trailing whitespace removed (`str::trim`).
pub open spec fn trim(s: Seq<char>) -> Seq<char> {
    trim_end(trim_start(s))
}

/// The position `skip_while` reaches lies in `[i, hi]`; everything skipped satisfies `p`
/// and the character it stops at does not.
pub proof fn lemma_skip_while(s: Seq<char>, i: int, hi: int, p: spec_fn(char) -> bool)
    requires
        0 <= i <= hi <= s.len(),
    ensures
        i <= skip_while(s, i, hi, p) <= hi,
        forall|k: int| i <= k < skip_while(s, i, hi, p) ==> p(#[trigger] s[k]),
        skip_while(s, i, hi, p) < hi ==> !p(s[skip_while(s, i, hi, p)]),
    decreases hi - i,
{
    if i < hi && p(s[i]) {
        lemma_skip_while(s, i + 1, hi, p);
    }
}

/// The position `back_while` reaches lies in `[lo, j]`; everything dropped satisfies `p`
/// and the character before it does not.
pub proof fn lemma_back_while(s: Seq<char>, lo: int, j: int, p: spec_fn(char) -> bool)
    requires
        0 <= lo <= j <= s.len(),
    ensures
        lo <= back_while(s, lo, j, p) <= j,
        forall|k: int| back_while(s, lo, j, p) <= k < j ==> p(#[trigger] s[k]),
        back_while(s, lo, j, p) > lo ==> !p(s[back_while(s, lo, j, p) - 1]),
    decreases j - lo,
{
    if lo < j && p(s[j - 1]) {
        lemma_back_while(s, lo, j - 1, p);
    }
}

/// `skip_while` only looks at the characters in `[i, hi)`.
pub proof fn lemma_skip_while_sub(s: Seq<char>, a: int, i: int, hi: int, b: int, p: spec_fn(char) -> bool)
    requires
        0 <= a <= i <= hi <= b <= s.len(),
    ensures
        skip_while(s.subrange(a, b), i - a, hi - a, p) == skip_while(s, i, hi, p) - a,
    decreases hi - i,
{
    if i < hi && p(s[i]) {
        lemma_skip_while_sub(s, a, i + 1, hi, b, p);
    }
}

/// `back_while` only looks at the characters in `[lo, j)`.
pub proof fn lemma_back_while_sub(s: Seq<char>, a: int, lo: int, j: int, b: int, p: spec_fn(char) -> bool)
    requires
        0 <= a <= lo <= j <= b <= s.len(),
    ensures
        back_while(s.subrange(a, b), lo - a, j - a, p) == back_while(s, lo, j, p) - a,
    decreases j - lo,
{
    if lo < j && p(s[j - 1]) {
        lemma_back_while_sub(s, a, lo, j - 1, b, p);
    }
}

/// `skip_while` stops at `q` when everything in `[i, q)` satisfies `p` and `q` does not.
pub proof fn lemma_skip_while_stops(s: Seq<char>, i: int, hi: int, p: spec_fn(char) -> bool, q: int)
    requires
        0 <= i <= q <= hi <= s.len(),
        forall|k: int| i <= k < q ==> p(#[trigger] s[k]),
        q == hi || !p(s[q]),
    ensures
        skip_while(s, i, hi, p) == q,
    decreases q - i,
{
    if i < q {
        lemma_skip_while_stops(s, i + 1, hi, p, q);
    }
}

/// `back_while` stops at `q` when everything in `[q, j)` satisfies `p` and the character
/// before `q` does not.
pub proof fn lemma_back_while_stops(s: Seq<char>, lo: int, j: int, p: spec_fn(char) -> bool, q: int)
    requires
        0 <= lo <= q <= j <= s.len(),
        forall|k: int| q <= k < j ==> p(#[trigger] s[k]),
        q == lo || !p(s[q - 1]),
    ensures
        back_while(s, lo, j, p) == q,
    decreases j - q,
{
    if q < j {
        lemma_back_while_stops(s, lo, j - 1, p, q);
    }
}

/// `skip_while` gives the same answer on two sequences that `p` cannot tell apart in `[i, hi)`.
pub proof fn lemma_skip_while_agree(
    s: Seq<char>,
    t: Seq<char>,
    i: int,
    hi: int,
    p: spec_fn(char) -> bool,
)
    requires
        0 <= i <= hi <= s.len(),
        hi <= t.len(),
        forall|k: int| i <= k < hi ==> p(#[trigger] s[k]) == p(t[k]),
    ensures
        skip_while(s, i, hi, p) == skip_while(t, i, hi, p),
    decreases hi - i,
{
    if i < hi {
        lemma_skip_while_agree(s, t, i + 1, hi, p);
    }
}

/// Advances past whitespace: the exec counterpart of `skip_ws`.
pub fn skip_whitespace(v: &[char], i: usize, hi: usize) -> (r: usize)
    requires
        i <= hi <= v@.len(),
    ensures
        r == skip_ws(v@, i as int, hi as int),
{
    let mut k = i;
    while k < hi && is_whitespace(v[k])
        invariant
            i <= k <= hi <= v@.len(),
            skip_ws(v@, k as int, hi as int) == skip_ws(v@, i as int, hi as int),
        decreases hi - k,
    {
        k += 1;
    }
    k
}

/// Backs up over whitespace: the exec counterpart of `back_ws`.
pub fn back_whitespace(v: &[char], lo: usize, j: usize) -> (r: usize)
    requires
        lo <= j <= v@.len(),
    ensures
        r == back_ws(v@, lo as int, j as int),
{
    let mut k = j;
    while k > lo && is_whitespace(v[k - 1])
        invariant
            lo <= k <= j <= v@.len(),
            back_ws(v@, lo as int, k as int) == back_ws(v@, lo as int, j as int),
        decreases k - lo,
    {
        k -= 1;
    }
    k
}

/// The bounds of `v[lo..hi]` with surrounding whitespace removed.
pub fn trim_bounds(v: &[char], lo: usize, hi: usize) -> (r: (usize, usize))
    requires
        lo <= hi <= v@.len(),
    ensures
        lo <= r.0 <= r.1 <= hi,
        v@.subrange(r.0 as int, r.1 as int) == trim(v@.subrange(lo as int, hi as int)),
{
    let a = skip_whitespace(v, lo, hi);
    proof {
        lemma_skip_while(v@, lo as int, hi as int, ws_pred());
    }
    let b = back_whitespace(v, a, hi);
    proof {
        let s = v@.subrange(lo as int, hi as int);
        lemma_back_while(v@, a as int, hi as int, ws_pred());
        lemma_skip_while_sub(v@, lo as int, lo as int, hi as int, hi as int, ws_pred());
        let t = trim_start(s);
        assert(t == v@.subrange(a as int, hi as int));
        lemma_back_while_sub(v@, a as int, a as int, hi as int, hi as int, ws_pred());
        assert(trim(s) == v@.subrange(a as int, b as int));
    }
    (a, b)
}

// ---------------------------------------------------------------------------
// Substrings
// ---------------------------------------------------------------------------

/// `needle` occurs in `hay` starting at index `i`.
pub open spec fn occurs_at(hay: Seq<char>, needle: Seq<char>, i: int) -> bool {
    0 <= i && i + needle.len() <= hay.len() && hay.subrange(i, i + needle.len()) == needle
}

/// `needle` occurs somewhere in `hay` (`str::contains` with a string pattern).
pub open spec fn contains_seq(hay: Seq<char>, needle: Seq<char>) -> bool {
    exists|i: int| occurs_at(hay, needle, i)
}

/// Whether `needle` occurs at index `i` of `hay`.
pub fn matches_at(hay: &Vec<char>, needle: &Vec<char>, i: usize) -> (b: bool)
    ensures
        b == occurs_at(hay@, needle@, i as int),
{
    if needle.len() > hay.len() || i > hay.len() - needle.len() {
        return false;
    }
    let hay_len = hay.len();
    let mut k: usize = 0;
    while k < needle.len()
        invariant
            hay_len == hay@.len(),
            i + needle@.len() <= hay@.len(),
            k <= needle@.len(),
            forall|j: int| 0 <= j < k ==> hay@[i + j] == needle@[j],
        decreases needle@.len() - k,
    {
        assert(i + k < hay@.len());
        if hay[i + k] != needle[k] {
            assert(hay@.subrange(i as int, i + needle@.len())[k as int] != needle@[k as int]);
            return false;
        }
        k += 1;
    }
    assert(hay@.subrange(i as int, i + needle@.len()) =~= needle@);
    true
}

/// Whether `needle` occurs in `hay`.
pub fn contains_chars(hay: &Vec<char>, needle: &Vec<char>) -> (b: bool)
    ensures
        b == contains_seq(hay@, needle@),
{
    if needle.len() > hay.len() {
        return false;
    }
    let last = hay.len() - needle.len();
    let mut i: usize = 0;
    loop
        invariant
            last == hay@.len() - needle@.len(),
            i <= last,
            forall|j: int| 0 <= j < i ==> !occurs_at(hay@, needle@, j),
        ensures
            forall|j: int| 0 <= j <= last ==> !occurs_at(hay@, needle@, j),
        decreases last - i,
    {
        if matches_at(hay, needle, i) {
            return true;
        }
        if i == last {
            break;
        }
        i += 1;
    }
    false
}

/// `s` begins with `p` (`str::starts_with`).
pub open spec fn starts_with(s: Seq<char>, p: Seq<char>) -> bool {
    p.len() <= s.len() && s.take(p.len() as int) == p
}

/// Whether `v[lo..hi]` begins with `pat`.
pub fn range_starts_with(v: &[char], lo: usize, hi: usize, pat: &[char]) -> (b: bool)
    requires
        lo <= hi <= v@.len(),
    ensures
        b == starts_with(v@.subrange(lo as int, hi as int), pat@),
{
    if pat.len() > hi - lo {
        return false;
    }
    let ghost t = v@.subrange(lo as int, hi as int);
    let mut k: usize = 0;
    while k < pat.len()
        invariant
            k <= pat@.len() <= hi - lo,
            lo <= hi <= v@.len(),
            t == v@.subrange(lo as int, hi as int),
            forall|j: int| 0 <= j < k ==> t[j] == pat@[j],
        decreases pat@.len() - k,
    {
        if v[lo + k] != pat[k] {
            assert(t.take(pat@.len() as int)[k as int] != pat@[k as int]);
            return false;
        }
        k += 1;
    }
    assert(t.take(pat@.len() as int) =~= pat@);
    true
}

/// Whether `v[lo..hi]` is exactly `pat`.
pub fn range_equals(v: &[char], lo: usize, hi: usize, pat: &[char]) -> (b: bool)
    requires
        lo <= hi <= v@.len(),
    ensures
        b == (v@.subrange(lo as int, hi as int) == pat@),
{
    if pat.len() != hi - lo {
        return false;
    }
    let r = range_starts_with(v, lo, hi, pat);
    assert(v@.subrange(lo as int, hi as int).take(pat@.len() as int) == v@.subrange(lo as int, hi as int));
    r
}

// ---------------------------------------------------------------------------
// Edits addressed by character index
// ---------------------------------------------------------------------------

/// The number of bytes in the UTF-8 encoding of `c`.
pub open spec fn utf8_width(c: char) -> nat {
    if (c as u32) < 0x80 {
        1
    } else if (c as u32) < 0x800 {
        2
    } else if (c as u32) < 0x10000 {
        3
    } else {
        4
    }
}

/// The number of bytes in the UTF-8 encoding of `c` (`char::len_utf8`).
pub fn char_width(c: char) -> (n: usize)
    ensures
        n == utf8_width(c),
{
    let u = c as u32;
    if u < 0x80 {
        1
    } else if u < 0x800 {
        2
    } else if u < 0x10000 {
        3
    } else {
        4
    }
}

/// The UTF-8 byte length of a character sequence.
pub open spec fn utf8_len(s: Seq<char>) -> nat
    decreases s.len(),
{
    if s.len() == 0 {
        0
    } else {
        utf8_len(s.drop_last()) + utf8_width(s.last())
    }
}

/// The width of a character is the length of its UTF-8 encoding.
proof fn lemma_width_encode(c: char)
    ensures
        vstd::utf8::encode_scalar(c as u32).len() == utf8_width(c),
{
    broadcast use vstd::utf8::char_is_scalar;
}

/// The byte length of a character sequence is the length of its UTF-8 encoding.
pub proof fn lemma_utf8_len_encode(s: Seq<char>)
    ensures
        utf8_len(s) == vstd::utf8::encode_utf8(s).len(),
    decreases s.len(),
{
    if s.len() > 0 {
        lemma_utf8_len_encode(s.drop_first());
        lemma_width_encode(s[0]);
        lemma_width_encode(s.last());
        if s.len() > 1 {
            lemma_utf8_len_encode(s.drop_first().drop_last());
            lemma_utf8_len_encode(s.drop_last().drop_first());
            assert(s.drop_first().drop_last() =~= s.drop_last().drop_first());
            lemma_utf8_len_encode(s.drop_last());
            assert(s.drop_first().last() == s.last());
            assert(s.drop_last()[0] == s[0]);
        } else {
            assert(s.drop_first() =~= Seq::<char>::empty());
            assert(s.drop_last() =~= Seq::<char>::empty());
        }
    }
}

/// The byte offset of character `char_index` in `text`, or the byte length of `text` when
/// the index is at or past its end.
pub fn char_to_byte(text: &str, char_index: usize) -> (b: usize)
    ensures
        b == utf8_len(text@.take(vstd::math::min(char_index as int, text@.len() as int))),
{
    let mut byte: usize = 0;
    let mut k: usize = 0;
    let total = text.as_bytes().len();
    proof {
        lemma_utf8_len_encode(text@);
    }
    for c in it: text.chars()
        invariant
            it.seq() == text@,
            k == it.index(),
            k <= char_index,
            byte == utf8_len(text@.take(k as int)),
            utf8_len(text@) == vstd::utf8::encode_utf8(text@).len(),
            utf8_len(text@) == total,
    {
        if k == char_index {
            return byte;
        }
        proof {
            lemma_utf8_len_prefix(text@, k as int + 1);
            assert(text@.take(k + 1).drop_last() == text@.take(k as int));
            assert(text@.take(k + 1).last() == c);
        }
        byte = byte + char_width(c);
        k += 1;
    }
    assert(text@.take(k as int) == text@);
    text.len()
}

/// The byte length of a prefix is bounded by that of the whole sequence.
pub proof fn lemma_utf8_len_prefix(s: Seq<char>, k: int)
    requires
        0 <= k <= s.len(),
    ensures
        utf8_len(s.take(k)) <= utf8_len(s),
    decreases s.len() - k,
{
    if k < s.len() {
        lemma_utf8_len_prefix(s, k + 1);
        assert(s.take(k + 1).drop_last() == s.take(k));
    } else {
        assert(s.take(k) == s);
    }
}

/// `text` with the characters in `[start, end)` replaced by `replacement`, where both
/// indices are clamped to the length of `text`; unchanged when the clamped start lies
/// after the clamped end.
pub open spec fn replaced(text: Seq<char>, start: int, end: int, replacement: Seq<char>) -> Seq<
    char,
> {
    let a = vstd::math::min(start, text.len() as int);
    let b = vstd::math::min(end, text.len() as int);
    if a <= b {
        text.take(a) + replacement + text.skip(b)
    } else {
        text
    }
}

/// Replaces the characters in `[start, end)` of `text` with `replacement`.
pub fn replace_char_range(text: &mut String, start: usize, end: usize, replacement: &str)
    ensures
        final(text)@ == replaced(old(text)@, start as int, end as int, replacement@),
{
    let v = chars_of(text.as_str());
    let n = v.len();
    let a = if start < n { start } else { n };
    let b = if end < n { end } else { n };
    if a <= b {
        let mut out = string_of(&v, 0, a);
        out.append(replacement);
        let tail = string_of(&v, b, n);
        out.append(tail.as_str());
        assert(v@.subrange(0, a as int) == v@.take(a as int));
        assert(v@.subrange(b as int, n as int) == v@.skip(b as int));
        *text = out;
    }
}

/// The first `max_chars` characters of `text`; when `text` is longer, the first
/// `max_chars - 1` characters followed by `~`.
pub open spec fn truncated(text: Seq<char>, max_chars: int) -> Seq<char> {
    if text.len() <= max_chars {
        text
    } else {
        text.take(if max_chars > 0 { max_chars - 1 } else { 0 }).push('~')
    }
}

/// Shortening keeps the text when it fits; otherwise it keeps the first `max_chars - 1`
/// characters and ends in `~`, so the result is exactly `max_chars` long.
pub proof fn lemma_truncated_shape(text: Seq<char>, max_chars: int)
    requires
        max_chars > 0,
    ensures
        text.len() <= max_chars ==> truncated(text, max_chars) == text,
        text.len() > max_chars ==> {
            let r = truncated(text, max_chars);
            &&& r.len() == max_chars
            &&& r.last() == '~'
            &&& forall|k: int| 0 <= k < max_chars - 1 ==> #[trigger] r[k] == text[k]
        },
{
}

/// Shortens `text` to at most `max_chars` characters, marking a cut with `~`.
pub fn truncate(text: &str, max_chars: usize) -> (r: String)
    ensures
        r@ == truncated(text@, max_chars as int),
        max_chars > 0 ==> r@.len() <= max_chars,
{
    let v = chars_of(text);
    if v.len() <= max_chars {
        return string_of(&v, 0, v.len());
    }
    let keep = if max_chars > 0 { max_chars - 1 } else { 0 };
    let mut out = string_of(&v, 0, keep);
    push_char(&mut out, '~');
    out
}

} // verus!

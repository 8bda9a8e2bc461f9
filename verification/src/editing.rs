//! Editing helpers for the note body: the `/` command trigger, checkbox toggling
//! and list continuation on a new line.
use vstd::prelude::*;
use crate::text::{
    back_whitespace, back_while, chars_of, is_digit, is_whitespace, is_ws, lemma_back_while,
    lemma_back_while_stops, lemma_back_while_sub, lemma_skip_while, lemma_skip_while_agree,
    lemma_skip_while_stops, lemma_skip_while_sub, range_equals, range_starts_with,
    replace_char_range, replaced, skip_whitespace, skip_while, skip_ws, starts_with, string_of,
    sub_vec, trim, trim_bounds, trim_end, trim_start, ws_pred,
};

verus! {

// ---------------------------------------------------------------------------
// Slash trigger
// ---------------------------------------------------------------------------

/// `s[k]` is a `/` that opens the word ending at `c`: nothing between them is a
/// `/` or whitespace.
pub open spec fn slash_opens(s: Seq<char>, c: int, k: int) -> bool {
    &&& 0 <= k < c <= s.len()
    &&& s[k] == '/'
    &&& forall|j: int| k < j < c ==> #[trigger] s[j] != '/' && !is_ws(s[j])
}

/// Finds the `/` command being typed at `cursor` (clamped to the text): its position and
/// the query typed after it.
pub fn slash_trigger(text: &str, cursor: usize) -> (r: Option<(usize, String)>)
    ensures
        ({
            let c = vstd::math::min(cursor as int, text@.len() as int);
            &&& r matches Some((k, q)) ==> slash_opens(text@, c, k as int) && q@ == text@.subrange(
                k + 1,
                c,
            )
            &&& r is None ==> forall|k: int| !slash_opens(text@, c, k)
        }),
{
    let chars = chars_of(text);
    let c = if cursor < chars.len() {
        cursor
    } else {
        chars.len()
    };
    let mut index = c;
    loop
        invariant
            chars@ == text@,
            c == vstd::math::min(cursor as int, text@.len() as int),
            index <= c,
            forall|j: int| index <= j < c ==> #[trigger] chars@[j] != '/' && !is_ws(chars@[j]),
        ensures
            forall|k: int| !slash_opens(text@, c as int, k),
        decreases index,
    {
        if index == 0 {
            break;
        }
        let ch = chars[index - 1];
        if ch == '/' {
            let query = string_of(&chars, index, c);
            return Some((index - 1, query));
        }
        if ch == '\n' || is_whitespace(ch) {
            assert forall|k: int| !slash_opens(text@, c as int, k) by {
                if slash_opens(text@, c as int, k) && k < index - 1 {
                    assert(chars@[index - 1] != '/' && !is_ws(chars@[index - 1]));
                }
            }
            break;
        }
        index -= 1;
    }
    None
}

/// A `/` followed by a query without `/` or whitespace, with the cursor at the query's
/// end, is the one `/` that opens a command there, whatever stands before it.
pub proof fn lemma_slash_query(before: Seq<char>, q: Seq<char>, after: Seq<char>)
    requires
        forall|j: int| 0 <= j < q.len() ==> #[trigger] q[j] != '/' && !is_ws(q[j]),
    ensures
        ({
            let s = before + seq!['/'] + q + after;
            let c = (before.len() + 1 + q.len()) as int;
            &&& slash_opens(s, c, before.len() as int)
            &&& forall|k: int| #[trigger] slash_opens(s, c, k) ==> k == before.len()
        }),
{
    let s = before + seq!['/'] + q + after;
    let c = (before.len() + 1 + q.len()) as int;
    let b = before.len() as int;
    assert(s[b] == '/');
    assert forall|j: int| b < j < c implies #[trigger] s[j] != '/' && !is_ws(s[j]) by {
        assert(s[j] == q[j - b - 1]);
    }
    assert forall|k: int| #[trigger] slash_opens(s, c, k) implies k == b by {
        if k > b {
            assert(s[k] == q[k - b - 1]);
        }
    }
}

/// No command is being typed when the character before the cursor is whitespace.
pub proof fn lemma_space_ends_query(s: Seq<char>, c: int)
    requires
        0 < c <= s.len(),
        is_ws(s[c - 1]),
    ensures
        forall|k: int| !slash_opens(s, c, k),
{
    assert forall|k: int| !slash_opens(s, c, k) by {
        if slash_opens(s, c, k) && k < c - 1 {
            assert(s[c - 1] != '/' && !is_ws(s[c - 1]));
        }
    }
}

/// Replacing from an opening `/` to the cursor replaces exactly the `/` and the query
/// typed after it, leaving the rest of the text in place.
pub proof fn lemma_command_replaces_query(s: Seq<char>, c: int, k: int, ins: Seq<char>)
    requires
        slash_opens(s, c, k),
    ensures
        s.subrange(k, c) == seq!['/'] + s.subrange(k + 1, c),
        replaced(s, k, c, ins) == s.take(k) + ins + s.skip(c),
        replaced(s, k, c, ins).subrange(k, k + ins.len()) == ins,
{
    assert(s.subrange(k, c) =~= seq!['/'] + s.subrange(k + 1, c));
    let r = replaced(s, k, c, ins);
    assert(r.subrange(k, k + ins.len()) =~= ins);
}

// ---------------------------------------------------------------------------
// Decimal numbers
// ---------------------------------------------------------------------------

/// ASCII digits as a predicate value.
pub open spec fn digit_pred() -> spec_fn(char) -> bool {
    |c: char| is_digit(c)
}

/// The value of one ASCII digit.
pub open spec fn digit_value(c: char) -> int {
    (c as u32) - ('0' as u32)
}

/// The value of a string of ASCII digits read in base ten.
pub open spec fn decimal_value(d: Seq<char>) -> int
    decreases d.len(),
{
    if d.len() == 0 {
        0
    } else {
        decimal_value(d.drop_last()) * 10 + digit_value(d.last())
    }
}

/// The ASCII digit for `n < 10`.
pub open spec fn digit_char(n: int) -> char {
    (n + 48) as char
}

/// The base-ten digits of `n`, most significant first, without leading zeros.
pub open spec fn decimal(n: nat) -> Seq<char>
    decreases n,
{
    if n < 10 {
        seq![digit_char(n as int)]
    } else {
        decimal(n / 10).push(digit_char((n % 10) as int))
    }
}

/// Appends the base-ten digits of `n` to `out`.
pub fn push_decimal(out: &mut Vec<char>, n: usize)
    ensures
        final(out)@ == old(out)@ + decimal(n as nat),
    decreases n,
{
    if n >= 10 {
        push_decimal(out, n / 10);
    }
    let d = (n % 10) as u8;
    let ch = (48u8 + d) as char;
    assert(ch == digit_char((n % 10) as int));
    out.push(ch);
    proof {
        if n >= 10 {
            assert(decimal(n as nat) == decimal((n / 10) as nat).push(digit_char((n % 10) as int)));
        } else {
            assert(decimal(n as nat) == seq![digit_char(n as int)]);
        }
    }
}

/// Every character of `decimal(n)` is a digit, and reading them back gives `n`.
pub proof fn lemma_decimal_round_trip(n: nat)
    ensures
        forall|i: int| 0 <= i < decimal(n).len() ==> is_digit(#[trigger] decimal(n)[i]),
        decimal_value(decimal(n)) == n,
        decimal(n).len() > 0,
    decreases n,
{
    lemma_digit_char((n % 10) as int);
    if n >= 10 {
        lemma_decimal_round_trip(n / 10);
        let d = decimal(n);
        assert(d.drop_last() == decimal(n / 10));
        assert(n == (n / 10) * 10 + n % 10);
        assert(d.last() == digit_char((n % 10) as int));
        assert(decimal_value(d) == decimal_value(d.drop_last()) * 10 + digit_value(d.last()));
    } else {
        let d = decimal(n);
        assert(d.drop_last() =~= Seq::<char>::empty());
        assert(decimal_value(d) == decimal_value(d.drop_last()) * 10 + digit_value(d.last()));
    }
}

/// `digit_char` gives an ASCII digit whose value is its argument.
pub proof fn lemma_digit_char(k: int)
    requires
        0 <= k < 10,
    ensures
        is_digit(digit_char(k)),
        digit_value(digit_char(k)) == k,
{
    assert(digit_char(k) as u32 == k + 48);
}

/// A prefix of a digit string never reads as more than the whole string.
proof fn lemma_decimal_prefix(d: Seq<char>, k: int)
    requires
        0 <= k <= d.len(),
        forall|i: int| 0 <= i < d.len() ==> is_digit(#[trigger] d[i]),
    ensures
        0 <= decimal_value(d.take(k)) <= decimal_value(d),
    decreases d.len(),
{
    if d.len() > 0 {
        if k == d.len() {
            assert(d.take(k) == d);
            lemma_decimal_prefix(d.drop_last(), d.len() - 1);
            assert(d.drop_last().take(d.len() - 1) == d.drop_last());
        } else {
            lemma_decimal_prefix(d.drop_last(), k);
            assert(d.drop_last().take(k) == d.take(k));
            lemma_decimal_prefix(d.drop_last(), d.len() - 1);
            assert(d.drop_last().take(d.len() - 1) == d.drop_last());
        }
    } else {
        assert(d.take(k) == d);
    }
}

// ---------------------------------------------------------------------------
// Numbered list markers
// ---------------------------------------------------------------------------

/// The numbered-list marker at the start of `t` (a line without its indentation):
/// digits, a `.`, then whitespace or the end. Gives the number and whether anything
/// but whitespace follows; `None` when there is no marker or the number does not fit
/// in `usize`.
pub open spec fn numbered(t: Seq<char>) -> Option<(usize, bool)> {
    let dc = skip_while(t, 0, t.len() as int, digit_pred());
    let rest = t.skip(dc + 1);
    if dc == 0 || dc >= t.len() || t[dc] != '.' {
        None
    } else if rest.len() > 0 && !is_ws(rest[0]) {
        None
    } else if decimal_value(t.take(dc)) > usize::MAX {
        None
    } else {
        Some((decimal_value(t.take(dc)) as usize, trim(rest).len() > 0))
    }
}

/// `numbered` on `v[lo..hi]`.
#[verifier::loop_isolation(false)]
pub fn numbered_range(v: &[char], lo: usize, hi: usize) -> (r: Option<(usize, bool)>)
    requires
        lo <= hi <= v@.len(),
    ensures
        r == numbered(v@.subrange(lo as int, hi as int)),
{
    let ghost t = v@.subrange(lo as int, hi as int);
    let mut d = lo;
    while d < hi && '0' <= v[d] && v[d] <= '9'
        invariant
            lo <= d <= hi <= v@.len(),
            skip_while(v@, d as int, hi as int, digit_pred()) == skip_while(
                v@,
                lo as int,
                hi as int,
                digit_pred(),
            ),
        decreases hi - d,
    {
        d += 1;
    }
    proof {
        lemma_skip_while(v@, lo as int, hi as int, digit_pred());
        lemma_skip_while_sub(v@, lo as int, lo as int, hi as int, hi as int, digit_pred());
    }
    let ghost dc = d - lo;
    assert(dc == skip_while(t, 0, t.len() as int, digit_pred()));
    if d == lo || d >= hi || v[d] != '.' {
        return None;
    }
    assert(t[dc as int] == v@[d as int]);
    if d + 1 < hi && !is_whitespace(v[d + 1]) {
        assert(t.skip(dc + 1)[0] == v@[d + 1]);
        return None;
    }
    let (ra, rb) = trim_bounds(v, d + 1, hi);
    assert(t.skip(dc + 1) == v@.subrange(d + 1, hi as int));
    let has_content = ra < rb;
    let ghost digits = t.take(dc as int);
    assert forall|i: int| 0 <= i < digits.len() implies is_digit(#[trigger] digits[i]) by {
        assert(digits[i] == v@[lo + i]);
    }
    let mut n: usize = 0;
    let mut i = lo;
    while i < d
        invariant
            lo <= i <= d < hi <= v@.len(),
            digits == v@.subrange(lo as int, d as int),
            forall|j: int| 0 <= j < digits.len() ==> is_digit(#[trigger] digits[j]),
            n == decimal_value(digits.take(i - lo)),
        decreases d - i,
    {
        assert(digits[i - lo] == v@[i as int]);
        let dv = (v[i] as u32 - '0' as u32) as usize;
        assert(digits.take(i - lo + 1).drop_last() == digits.take(i - lo));
        assert(digits.take(i - lo + 1).last() == v@[i as int]);
        match n.checked_mul(10) {
            Some(m) => match m.checked_add(dv) {
                Some(next) => {
                    n = next;
                },
                None => {
                    proof {
                        lemma_decimal_prefix(digits, i - lo + 1);
                    }
                    return None;
                },
            },
            None => {
                proof {
                    lemma_decimal_prefix(digits, i - lo + 1);
                }
                return None;
            },
        }
        i += 1;
    }
    assert(digits.take(d - lo) == digits);
    Some((n, has_content))
}

/// Reads a numbered-list marker such as `12. ` at the start of `trimmed`.
pub fn numbered_marker(trimmed: &str) -> (r: Option<(usize, bool)>)
    ensures
        r == numbered(trimmed@),
{
    let v = chars_of(trimmed);
    assert(v@.subrange(0, v@.len() as int) == v@);
    numbered_range(&v, 0, v.len())
}

// ---------------------------------------------------------------------------
// Checkboxes
// ---------------------------------------------------------------------------

/// Any character but a line feed, as a predicate value.
pub open spec fn not_nl_pred() -> spec_fn(char) -> bool {
    |c: char| c != '\n'
}

/// An open to-do marker: `- [ ] `.
pub open spec fn todo_open() -> Seq<char> {
    seq!['-', ' ', '[', ' ', ']', ' ']
}

/// A done to-do marker: `- [x] `.
pub open spec fn todo_done() -> Seq<char> {
    seq!['-', ' ', '[', 'x', ']', ' ']
}

/// `p` is where a line of `s` starts (`str::split_inclusive('\n')`).
pub open spec fn is_line_start(s: Seq<char>, p: int) -> bool {
    0 <= p < s.len() && (p == 0 || s[p - 1] == '\n')
}

/// The end of the line that starts at `p`: just after its line feed, or the end of `s`.
pub open spec fn line_end_from(s: Seq<char>, p: int) -> int {
    let k = skip_while(s, p, s.len() as int, not_nl_pred());
    if k < s.len() {
        k + 1
    } else {
        k
    }
}

/// The first line feed in `v[from..to]`, or `to` where there is none. Scanning from a line
/// start to the end of the text, the line ends just after it (`line_end_from`).
pub fn find_newline(v: &[char], from: usize, to: usize) -> (k: usize)
    requires
        from <= to <= v@.len(),
    ensures
        k == skip_while(v@, from as int, to as int, not_nl_pred()),
        from <= k <= to,
        forall|i: int| from <= i < k ==> v@[i] != '\n',
        k < to ==> v@[k as int] == '\n',
        to == v@.len() ==> line_end_from(v@, from as int) == if k < to {
            k + 1
        } else {
            k as int
        },
{
    let mut k = from;
    while k < to && v[k] != '\n'
        invariant
            from <= k <= to <= v@.len(),
            skip_while(v@, k as int, to as int, not_nl_pred()) == skip_while(
                v@,
                from as int,
                to as int,
                not_nl_pred(),
            ),
        decreases to - k,
    {
        k += 1;
    }
    proof {
        lemma_skip_while(v@, from as int, to as int, not_nl_pred());
    }
    k
}

/// The line starting at `p` holds, after its indentation, a to-do marker that begins at `q`.
pub open spec fn checkbox_at(s: Seq<char>, p: int, q: int) -> bool {
    let e = line_end_from(s, p);
    &&& is_line_start(s, p)
    &&& q == skip_ws(s, p, e)
    &&& (starts_with(s.subrange(q, e), todo_open()) || starts_with(s.subrange(q, e), todo_done()))
}

/// A to-do marker begins at `q` and `cursor` lies on it or just after it.
pub open spec fn checkbox_hit(s: Seq<char>, cursor: int, q: int) -> bool {
    exists|p: int| checkbox_at(s, p, q) && q <= cursor <= q + 6
}

/// The to-do marker that a click at `cursor` toggles, if any.
pub open spec fn toggle_target(s: Seq<char>, cursor: int) -> Option<int> {
    if exists|q: int| checkbox_hit(s, cursor, q) {
        Some(choose|q: int| checkbox_hit(s, cursor, q))
    } else {
        None
    }
}

/// `s` with the to-do marker at `q` flipped between open and done.
pub open spec fn toggled(s: Seq<char>, q: int) -> Seq<char> {
    let m = if s.subrange(q, q + 6) == todo_open() {
        todo_done()
    } else {
        todo_open()
    };
    s.take(q) + m + s.skip(q + 6)
}

/// A marker lies inside its line, before the line feed.
proof fn lemma_checkbox_in_line(s: Seq<char>, p: int, q: int)
    requires
        checkbox_at(s, p, q),
    ensures
        p <= q,
        q + 6 <= skip_while(s, p, s.len() as int, not_nl_pred()),
        q + 6 <= s.len(),
{
    let k = skip_while(s, p, s.len() as int, not_nl_pred());
    let e = line_end_from(s, p);
    lemma_skip_while(s, p, s.len() as int, not_nl_pred());
    lemma_skip_while(s, p, e, ws_pred());
    let m = s.subrange(q, e);
    assert(m.len() >= 6);
    if q + 6 > k {
        assert(s[k] == '\n');
        assert(m[k - q] == s[k]);
        assert(m.take(6)[k - q] == m[k - q]);
    }
}

/// At most one marker is hit by a given cursor.
pub proof fn lemma_checkbox_unique(s: Seq<char>, cursor: int, q1: int, q2: int)
    requires
        checkbox_hit(s, cursor, q1),
        checkbox_hit(s, cursor, q2),
    ensures
        q1 == q2,
{
    let p1 = choose|p: int| checkbox_at(s, p, q1) && q1 <= cursor <= q1 + 6;
    let p2 = choose|p: int| checkbox_at(s, p, q2) && q2 <= cursor <= q2 + 6;
    lemma_checkbox_in_line(s, p1, q1);
    lemma_checkbox_in_line(s, p2, q2);
    lemma_skip_while(s, p1, s.len() as int, not_nl_pred());
    lemma_skip_while(s, p2, s.len() as int, not_nl_pred());
    if p1 < p2 {
        assert(s[p2 - 1] == '\n');
    } else if p2 < p1 {
        assert(s[p1 - 1] == '\n');
    }
}

/// Toggles the to-do marker (`- [ ] ` / `- [x] `) that `cursor` lies on or just after.
/// Returns whether a marker was toggled.
pub fn toggle_checkbox_at(text: &mut String, cursor: usize) -> (r: bool)
    ensures
        r == toggle_target(old(text)@, cursor as int) is Some,
        final(text)@ == match toggle_target(old(text)@, cursor as int) {
            Some(q) => toggled(old(text)@, q),
            None => old(text)@,
        },
{
    let v = chars_of(text.as_str());
    let ghost s = v@;
    let n = v.len();
    let mut p: usize = 0;
    while p < n
        invariant
            s == v@,
            s == text@,
            s == old(text)@,
            n == s.len(),
            p <= n,
            p == 0 || p == n || s[p - 1] == '\n',
            forall|p2: int, q2: int|
                #![trigger checkbox_at(s, p2, q2)]
                checkbox_at(s, p2, q2) && p2 < p ==> !(q2 <= cursor <= q2 + 6),
        decreases n - p,
    {
        let k = find_newline(&v, p, n);
        let e = if k < n {
            k + 1
        } else {
            k
        };
        let q = skip_whitespace(&v, p, e);
        proof {
            lemma_skip_while(s, p as int, e as int, ws_pred());
        }
        let open = range_starts_with(&v, q, e, &['-', ' ', '[', ' ', ']', ' ']);
        let done = range_starts_with(&v, q, e, &['-', ' ', '[', 'x', ']', ' ']);
        assert(checkbox_at(s, p as int, q as int) == (open || done));
        if (open || done) && q <= cursor && cursor <= q + 6 {
            proof {
                assert(checkbox_at(s, p as int, q as int));
                assert(checkbox_hit(s, cursor as int, q as int));
                let t = choose|q2: int| checkbox_hit(s, cursor as int, q2);
                lemma_checkbox_unique(s, cursor as int, q as int, t);
                assert(toggle_target(s, cursor as int) == Some(q as int));
                lemma_checkbox_in_line(s, p as int, q as int);
                assert(s.subrange(q as int, e as int).take(6) == s.subrange(q as int, q + 6));
                reveal_strlit("- [x] ");
                reveal_strlit("- [ ] ");
            }
            if open {
                replace_char_range(text, q, q + 6, "- [x] ");
            } else {
                assert(s.subrange(q as int, q + 6)[3] != todo_open()[3]);
                replace_char_range(text, q, q + 6, "- [ ] ");
            }
            return true;
        }
        proof {
            assert forall|p2: int, q2: int|
                #![trigger checkbox_at(s, p2, q2)]
                checkbox_at(s, p2, q2) && p2 < e implies !(q2 <= cursor <= q2 + 6) by {
                if p2 > p {
                    assert(s[p2 - 1] == '\n');
                }
            }
        }
        p = e;
    }
    proof {
        assert forall|q: int| !checkbox_hit(s, cursor as int, q) by {
            if checkbox_hit(s, cursor as int, q) {
                let p2 = choose|p2: int| checkbox_at(s, p2, q) && q <= cursor <= q + 6;
            }
        }
    }
    false
}

/// A to-do marker after any indentation is toggled by a cursor on it: in a text made of
/// whole lines `before`, then a line of whitespace `w`, a marker `m` and anything `rest`, a
/// cursor from the start of `m` to just after it flips `m` between `- [ ] ` and `- [x] `
/// and changes nothing else.
pub proof fn lemma_toggle_indented_marker(
    before: Seq<char>,
    w: Seq<char>,
    m: Seq<char>,
    rest: Seq<char>,
    cursor: int,
)
    requires
        before.len() == 0 || before.last() == '\n',
        forall|k: int| 0 <= k < w.len() ==> is_ws(#[trigger] w[k]) && w[k] != '\n',
        m == todo_open() || m == todo_done(),
        before.len() + w.len() <= cursor <= before.len() + w.len() + 6,
    ensures
        ({
            let s = before + w + m + rest;
            let q = (before.len() + w.len()) as int;
            let flipped = if m == todo_open() {
                todo_done()
            } else {
                todo_open()
            };
            &&& toggle_target(s, cursor) == Some(q)
            &&& toggled(s, q) == before + w + flipped + rest
        }),
{
    let s = before + w + m + rest;
    let p = before.len() as int;
    let q = (before.len() + w.len()) as int;
    let n = s.len() as int;
    assert forall|k: int| p <= k < q + 6 implies s[k] != '\n' by {
        if k < q {
            assert(s[k] == w[k - p]);
        } else {
            assert(s[k] == m[k - q]);
        }
    }
    let k = skip_while(s, p, n, not_nl_pred());
    lemma_skip_while(s, p, n, not_nl_pred());
    assert(k >= q + 6) by {
        if k < q + 6 {
            assert(s[k] != '\n');
        }
    }
    let e = line_end_from(s, p);
    assert(q + 6 <= e <= n);
    assert forall|j: int| p <= j < q implies ws_pred()(#[trigger] s[j]) by {
        assert(s[j] == w[j - p]);
    }
    assert(s[q] == m[0]);
    lemma_skip_while_stops(s, p, e, ws_pred(), q);
    assert(s.subrange(q, e).take(6) =~= m);
    assert(is_line_start(s, p)) by {
        if p > 0 {
            assert(s[p - 1] == before.last());
        }
    }
    assert(checkbox_at(s, p, q));
    assert(checkbox_hit(s, cursor, q));
    let q2 = choose|q2: int| checkbox_hit(s, cursor, q2);
    lemma_checkbox_unique(s, cursor, q, q2);
    assert(s.subrange(q, q + 6) =~= m);
    if m == todo_done() {
        assert(m != todo_open()) by {
            assert(m[3] != todo_open()[3]);
        }
    }
    let flipped = if m == todo_open() {
        todo_done()
    } else {
        todo_open()
    };
    assert(s.take(q) =~= before + w);
    assert(s.skip(q + 6) =~= rest);
    assert(toggled(s, q) =~= before + w + flipped + rest);
}

/// Toggling a to-do marker twice at the same cursor gives back the text as it was: the
/// second toggle finds the same marker and flips it back.
pub proof fn lemma_toggle_twice(s: Seq<char>, cursor: int)
    requires
        toggle_target(s, cursor) is Some,
    ensures
        ({
            let q = toggle_target(s, cursor).unwrap();
            let t = toggled(s, q);
            &&& toggle_target(t, cursor) == Some(q)
            &&& toggled(t, q) == s
        }),
{
    let q = toggle_target(s, cursor).unwrap();
    assert(checkbox_hit(s, cursor, q));
    let p = choose|p: int| checkbox_at(s, p, q) && q <= cursor <= q + 6;
    lemma_checkbox_in_line(s, p, q);
    let t = toggled(s, q);
    let m = s.subrange(q, q + 6);
    let e = line_end_from(s, p);
    lemma_skip_while(s, p, s.len() as int, not_nl_pred());
    lemma_skip_while(s, p, e, ws_pred());
    assert(s.subrange(q, e).take(6) == m);
    let m2 = if m == todo_open() {
        todo_done()
    } else {
        todo_open()
    };
    assert(t.len() == s.len());
    assert forall|k: int| 0 <= k < s.len() && (k < q || k >= q + 6) implies #[trigger] t[k] == s[k] by {
        if k < q {
            assert(t[k] == s.take(q)[k]);
        } else {
            assert(t[k] == s.skip(q + 6)[k - q - 6]);
        }
    }
    assert forall|k: int| q <= k < q + 6 implies #[trigger] t[k] == m2[k - q] by {
        assert(t[k] == (s.take(q) + m2)[k]);
    }
    // The line structure is unchanged.
    assert forall|k: int| p <= k < s.len() implies not_nl_pred()(#[trigger] s[k]) == not_nl_pred()(
        t[k],
    ) by {
        if q <= k < q + 6 {
            assert(m[k - q] == s[k]);
        }
    }
    lemma_skip_while_agree(s, t, p, s.len() as int, not_nl_pred());
    assert(line_end_from(t, p) == e);
    assert forall|k: int| p <= k < q implies ws_pred()(#[trigger] t[k]) by {}
    lemma_skip_while_stops(t, p, e, ws_pred(), q);
    assert(t.subrange(q, e).take(6) =~= m2);
    assert(is_line_start(t, p)) by {
        if p > 0 {
            assert(t[p - 1] == s[p - 1]);
        }
    }
    assert(checkbox_at(t, p, q));
    assert(checkbox_hit(t, cursor, q));
    let q2 = choose|q2: int| checkbox_hit(t, cursor, q2);
    lemma_checkbox_unique(t, cursor, q, q2);
    assert(t.subrange(q, q + 6) =~= m2);
    if m == todo_open() {
        assert(m2 != todo_open()) by {
            assert(m2[3] != todo_open()[3]);
        }
    } else {
        assert(m == todo_done());
    }
    assert(toggled(t, q) =~= s);
}

// ---------------------------------------------------------------------------
// List continuation on a new line
// ---------------------------------------------------------------------------

/// The last line of `s` (`str::lines().last()`), or empty when `s` has no lines. A line
/// ending in `\r\n` loses both characters.
pub open spec fn last_line(s: Seq<char>) -> Seq<char> {
    let terminated = s.len() > 0 && s.last() == '\n';
    let t = if terminated {
        s.drop_last()
    } else {
        s
    };
    let l = t.skip(back_while(t, 0, t.len() as int, not_nl_pred()));
    if terminated && l.len() > 0 && l.last() == '\r' {
        l.drop_last()
    } else {
        l
    }
}

/// The list marker that a new line after a line starting with `t` continues: a to-do
/// line continues with an open to-do, a bullet with a bullet, a quote with a quote.
pub open spec fn list_prefix(t: Seq<char>) -> Option<Seq<char>> {
    if starts_with(t, todo_open()) || starts_with(t, todo_done()) {
        Some(todo_open())
    } else if starts_with(t, seq!['-', ' ']) {
        Some(seq!['-', ' '])
    } else if starts_with(t, seq!['>', ' ']) {
        Some(seq!['>', ' '])
    } else {
        None
    }
}

/// `n + 1`, saturating at `usize::MAX`.
pub open spec fn saturating_inc(n: usize) -> nat {
    if n == usize::MAX {
        n as nat
    } else {
        (n + 1) as nat
    }
}

/// How a new line continues the list item `prev` (the line before it): `None` when `prev`
/// is not a list item; `Some(None)` when the item is empty and is to be removed;
/// `Some(Some(ins))` when `ins` (the same indentation and the next marker) starts the new line.
/// A numbered item continues with the next number, any other item with its marker.
pub open spec fn continuation(prev: Seq<char>) -> Option<Option<Seq<char>>> {
    let ind = prev.take(skip_ws(prev, 0, prev.len() as int));
    let tr = trim_start(prev);
    match numbered(tr) {
        Some((num, has_content)) => {
            if !has_content {
                Some(None)
            } else {
                Some(Some(ind + decimal(saturating_inc(num)) + seq!['.', ' ']))
            }
        },
        None => match list_prefix(tr) {
            Some(prefix) => {
                if trim_end(tr) == trim_end(prefix) {
                    Some(None)
                } else {
                    Some(Some(ind + prefix))
                }
            },
            None => None,
        },
    }
}

/// What a line feed typed just before `c` does: the new text and the new cursor, or
/// the text unchanged and `None`. The line before the line feed decides (see
/// `continuation`); an empty item is removed and the cursor goes to where it began.
pub open spec fn smart_newline(s: Seq<char>, c: int) -> (Seq<char>, Option<int>) {
    if c <= 0 || c > s.len() || s[c - 1] != '\n' {
        (s, None)
    } else {
        let prev = last_line(s.take(c - 1));
        let remove_start = c - 1 - prev.len();
        match continuation(prev) {
            None => (s, None),
            Some(None) => (replaced(s, remove_start, c, seq![]), Some(remove_start)),
            Some(Some(ins)) => (replaced(s, c, c, ins), Some(c + ins.len())),
        }
    }
}

/// The bounds in `v` of the last line of `v[..m]`.
fn last_line_bounds(v: &[char], m: usize) -> (r: (usize, usize))
    requires
        m <= v@.len(),
    ensures
        r.0 <= r.1 <= m,
        v@.subrange(r.0 as int, r.1 as int) == last_line(v@.take(m as int)),
{
    let ghost s = v@;
    let terminated = m > 0 && v[m - 1] == '\n';
    let tend = if terminated {
        m - 1
    } else {
        m
    };
    let mut st = tend;
    while st > 0 && v[st - 1] != '\n'
        invariant
            st <= tend <= v@.len(),
            back_while(v@, 0, st as int, not_nl_pred()) == back_while(
                v@,
                0,
                tend as int,
                not_nl_pred(),
            ),
        decreases st,
    {
        st -= 1;
    }
    let lend = if terminated && tend > st && v[tend - 1] == '\r' {
        tend - 1
    } else {
        tend
    };
    proof {
        lemma_back_while(s, 0, tend as int, not_nl_pred());
        lemma_back_while_sub(s, 0, 0, tend as int, tend as int, not_nl_pred());
        let before = s.take(m as int);
        let t = if terminated {
            before.drop_last()
        } else {
            before
        };
        assert(t == s.subrange(0, tend as int));
        assert(t.skip(st as int) == s.subrange(st as int, tend as int));
    }
    (st, lend)
}

/// `continuation` of `v[st..lend]`, with the inserted characters built.
fn continuation_of(v: &[char], st: usize, lend: usize) -> (r: Option<Option<Vec<char>>>)
    requires
        st <= lend <= v@.len(),
    ensures
        r is None <==> continuation(v@.subrange(st as int, lend as int)) is None,
        r matches Some(None) ==> continuation(v@.subrange(st as int, lend as int)) == Some(
            None::<Seq<char>>,
        ),
        r matches Some(Some(ins)) ==> continuation(v@.subrange(st as int, lend as int)) == Some(
            Some(ins@),
        ),
{
    let ghost s = v@;
    let ghost prev = s.subrange(st as int, lend as int);
    let i1 = skip_whitespace(v, st, lend);
    proof {
        lemma_skip_while(s, st as int, lend as int, ws_pred());
        lemma_skip_while_sub(s, st as int, st as int, lend as int, lend as int, ws_pred());
        assert(prev.take(skip_ws(prev, 0, prev.len() as int)) == s.subrange(st as int, i1 as int));
        assert(trim_start(prev) == s.subrange(i1 as int, lend as int));
    }
    match numbered_range(v, i1, lend) {
        Some((number, has_content)) => {
            if !has_content {
                return Some(None);
            }
            let mut ins = sub_vec(v, st, i1);
            push_decimal(&mut ins, number.saturating_add(1));
            ins.push('.');
            ins.push(' ');
            assert(ins@ =~= s.subrange(st as int, i1 as int) + decimal(saturating_inc(number))
                + seq!['.', ' ']);
            return Some(Some(ins));
        },
        None => {},
    }
    let open = range_starts_with(v, i1, lend, &['-', ' ', '[', ' ', ']', ' ']);
    let done = range_starts_with(v, i1, lend, &['-', ' ', '[', 'x', ']', ' ']);
    let bullet = range_starts_with(v, i1, lend, &['-', ' ']);
    let quote = range_starts_with(v, i1, lend, &['>', ' ']);
    if !(open || done || bullet || quote) {
        return None;
    }
    let tb = back_whitespace(v, i1, lend);
    proof {
        lemma_back_while(s, i1 as int, lend as int, ws_pred());
        lemma_back_while_sub(s, i1 as int, i1 as int, lend as int, lend as int, ws_pred());
        let x = s.subrange(i1 as int, lend as int);
        assert(x.subrange(0, tb - i1) =~= s.subrange(i1 as int, tb as int));
        assert(trim_end(x) == s.subrange(i1 as int, tb as int));
        lemma_trim_end_markers();
    }
    let ghost tr = s.subrange(i1 as int, lend as int);
    let ghost pre = list_prefix(tr).unwrap();
    let empty_item = if open || done {
        assert(pre == todo_open());
        let pat = ['-', ' ', '[', ' ', ']'];
        assert(pat@ == trim_end(pre));
        range_equals(v, i1, tb, &pat)
    } else if bullet {
        assert(pre == seq!['-', ' ']);
        let pat = ['-'];
        assert(pat@ == trim_end(pre));
        range_equals(v, i1, tb, &pat)
    } else {
        assert(pre == seq!['>', ' ']);
        let pat = ['>'];
        assert(pat@ == trim_end(pre));
        range_equals(v, i1, tb, &pat)
    };
    assert(empty_item == (trim_end(tr) == trim_end(pre)));
    if empty_item {
        return Some(None);
    }
    let mut ins = sub_vec(v, st, i1);
    if open || done {
        ins.push('-');
        ins.push(' ');
        ins.push('[');
        ins.push(' ');
        ins.push(']');
        ins.push(' ');
        assert(ins@ =~= s.subrange(st as int, i1 as int) + todo_open());
    } else if bullet {
        ins.push('-');
        ins.push(' ');
        assert(ins@ =~= s.subrange(st as int, i1 as int) + seq!['-', ' ']);
    } else {
        ins.push('>');
        ins.push(' ');
        assert(ins@ =~= s.subrange(st as int, i1 as int) + seq!['>', ' ']);
    }
    Some(Some(ins))
}

/// The list markers without their trailing space.
proof fn lemma_trim_end_markers()
    ensures
        trim_end(todo_open()) == seq!['-', ' ', '[', ' ', ']'],
        trim_end(seq!['-', ' ']) == seq!['-'],
        trim_end(seq!['>', ' ']) == seq!['>'],
{
    reveal_with_fuel(back_while, 3);
    assert(trim_end(todo_open()) =~= seq!['-', ' ', '[', ' ', ']']);
    assert(trim_end(seq!['-', ' ']) =~= seq!['-']);
    assert(trim_end(seq!['>', ' ']) =~= seq!['>']);
}

/// Continues (or ends) a list after a line feed typed just before `cursor`. Returns
/// the new cursor when the text changed.
pub fn apply_smart_newline(text: &mut String, cursor: usize) -> (r: Option<usize>)
    requires
        smart_newline(old(text)@, cursor as int).1 matches Some(p) ==> p <= usize::MAX,
    ensures
        final(text)@ == smart_newline(old(text)@, cursor as int).0,
        r matches Some(p) ==> smart_newline(old(text)@, cursor as int).1 == Some(p as int),
        r is None ==> smart_newline(old(text)@, cursor as int).1 is None,
{
    let v = chars_of(text.as_str());
    let n = v.len();
    if cursor == 0 || cursor > n || v[cursor - 1] != '\n' {
        return None;
    }
    let m = cursor - 1;
    let (st, lend) = last_line_bounds(&v, m);
    let remove_start = m - (lend - st);
    match continuation_of(&v, st, lend) {
        None => None,
        Some(None) => {
            replace_char_range(text, remove_start, cursor, "");
            proof {
                reveal_strlit("");
            }
            Some(remove_start)
        },
        Some(Some(ins)) => {
            let ins_str = string_of(&ins, 0, ins.len());
            assert(ins@.subrange(0, ins@.len() as int) == ins@);
            replace_char_range(text, cursor, cursor, ins_str.as_str());
            Some(cursor + ins.len())
        },
    }
}

/// What `continuation` inserts is itself an empty list item: pressing Enter again right
/// after a continued item ends the list instead of continuing it.
pub proof fn lemma_continuation_ends(prev: Seq<char>)
    requires
        continuation(prev) matches Some(Some(_)),
    ensures
        continuation(continuation(prev).unwrap().unwrap()) == Some(None::<Seq<char>>),
{
    let ins = continuation(prev).unwrap().unwrap();
    let w = skip_ws(prev, 0, prev.len() as int);
    lemma_skip_while(prev, 0, prev.len() as int, ws_pred());
    let ind = prev.take(w);
    let tr = trim_start(prev);
    let x = ins.skip(ind.len() as int);
    assert(ins =~= ind + x);
    // `x` starts with a non-whitespace character, so the indentation is exactly `ind`.
    reveal_with_fuel(skip_while, 3);
    match numbered(tr) {
        Some((num, has_content)) => {
            let k = saturating_inc(num);
            lemma_decimal_round_trip(k);
            let d = decimal(k);
            assert(x =~= d + seq!['.', ' ']);
            assert(is_digit(d[0]));
            lemma_ends_after_indent(ins, ind, x);
            lemma_numbered_marker(k);
        },
        None => {
            let pre = list_prefix(tr).unwrap();
            assert(x =~= pre);
            lemma_ends_after_indent(ins, ind, x);
            assert(skip_while(x, 0, x.len() as int, digit_pred()) == 0);
            assert(starts_with(pre, pre)) by {
                assert(pre.take(pre.len() as int) =~= pre);
            }
            if pre == todo_open() {
            } else if pre == seq!['-', ' '] {
                assert(!starts_with(pre, todo_open()));
                assert(!starts_with(pre, todo_done()));
            } else {
                assert(!starts_with(pre, todo_open()));
                assert(!starts_with(pre, todo_done()));
                assert(!starts_with(pre, seq!['-', ' ']));
            }
        },
    }
}

/// A continued list item keeps the indentation of the item before it: for a line made of
/// whitespace `w` and an item `item`, what a new line starts with is `w` itself and then
/// the next marker: a numbered item's number plus one, or the same kind of marker.
pub proof fn lemma_continuation_keeps_indent(w: Seq<char>, item: Seq<char>)
    requires
        forall|k: int| 0 <= k < w.len() ==> is_ws(#[trigger] w[k]),
        item.len() > 0 ==> !is_ws(item[0]),
    ensures
        continuation(w + item) matches Some(Some(ins)) ==> {
            &&& ins.take(w.len() as int) == w
            &&& skip_ws(ins, 0, ins.len() as int) == w.len()
            &&& (numbered(item) matches Some((n, _)) ==> numbered(ins.skip(w.len() as int)) == Some(
                (saturating_inc(n) as usize, false),
            ))
            &&& (numbered(item) is None ==> list_prefix(ins.skip(w.len() as int)) == list_prefix(item))
        },
{
    let prev = w + item;
    if item.len() > 0 {
        assert forall|k: int| 0 <= k < w.len() implies ws_pred()(#[trigger] prev[k]) by {
            assert(prev[k] == w[k]);
        }
        assert(prev[w.len() as int] == item[0]);
        lemma_skip_while_stops(prev, 0, prev.len() as int, ws_pred(), w.len() as int);
        assert(prev.take(w.len() as int) =~= w);
        assert(trim_start(prev) =~= item);
    } else {
        assert(prev =~= w);
        lemma_skip_while_stops(prev, 0, prev.len() as int, ws_pred(), w.len() as int);
        assert(trim_start(prev) =~= item);
        assert(numbered(item) is None);
    }
    if continuation(prev) matches Some(Some(_)) {
        let ins = continuation(prev).unwrap().unwrap();
        let x = ins.skip(w.len() as int);
        assert(ins =~= w + x);
        match numbered(item) {
            Some((num, _)) => {
                let k = saturating_inc(num);
                lemma_decimal_round_trip(k);
                let d = decimal(k);
                assert(x =~= d + seq!['.', ' ']);
                assert(is_digit(d[0]));
                lemma_ends_after_indent(ins, w, x);
                lemma_numbered_marker(k);
            },
            None => {
                let pre = list_prefix(item).unwrap();
                assert(x =~= pre);
                reveal_with_fuel(skip_while, 3);
                lemma_ends_after_indent(ins, w, x);
                assert(starts_with(pre, pre)) by {
                    assert(pre.take(pre.len() as int) =~= pre);
                }
                if pre == todo_open() {
                } else if pre == seq!['-', ' '] {
                    assert(!starts_with(pre, todo_open()));
                    assert(!starts_with(pre, todo_done()));
                } else {
                    assert(!starts_with(pre, todo_open()));
                    assert(!starts_with(pre, todo_done()));
                    assert(!starts_with(pre, seq!['-', ' ']));
                }
            },
        }
    }
}

/// With an all-whitespace indentation `ind` and a remainder that starts with a
/// non-whitespace character, `ind` is the indentation and `x` the rest.
proof fn lemma_ends_after_indent(ins: Seq<char>, ind: Seq<char>, x: Seq<char>)
    requires
        ins == ind + x,
        x.len() > 0,
        !is_ws(x[0]),
        forall|k: int| 0 <= k < ind.len() ==> is_ws(#[trigger] ind[k]),
    ensures
        skip_ws(ins, 0, ins.len() as int) == ind.len(),
        ins.take(ind.len() as int) == ind,
        trim_start(ins) == x,
{
    assert forall|k: int| 0 <= k < ind.len() implies ws_pred()(#[trigger] ins[k]) by {
        assert(ins[k] == ind[k]);
    }
    assert(ins[ind.len() as int] == x[0]);
    lemma_skip_while_stops(ins, 0, ins.len() as int, ws_pred(), ind.len() as int);
    assert(ins.subrange(ind.len() as int, ins.len() as int) =~= x);
}

/// `n. ` reads back as an empty item numbered `n`.
pub proof fn lemma_numbered_marker(n: nat)
    requires
        n <= usize::MAX,
    ensures
        numbered(decimal(n) + seq!['.', ' ']) == Some((n as usize, false)),
{
    lemma_decimal_round_trip(n);
    let d = decimal(n);
    let x = d + seq!['.', ' '];
    assert forall|k: int| 0 <= k < d.len() implies digit_pred()(#[trigger] x[k]) by {
        assert(x[k] == d[k]);
    }
    assert(x[d.len() as int] == '.');
    lemma_skip_while_stops(x, 0, x.len() as int, digit_pred(), d.len() as int);
    assert(x.take(d.len() as int) =~= d);
    let rest = x.skip(d.len() as int + 1);
    assert(rest =~= seq![' ']);
    reveal_with_fuel(skip_while, 3);
    assert(trim_start(rest) =~= Seq::<char>::empty());
    assert(trim(rest).len() == 0);
}

/// No line holds a line feed.
proof fn lemma_last_line_no_newline(s: Seq<char>)
    ensures
        forall|k: int| 0 <= k < last_line(s).len() ==> #[trigger] last_line(s)[k] != '\n',
{
    let terminated = s.len() > 0 && s.last() == '\n';
    let t = if terminated {
        s.drop_last()
    } else {
        s
    };
    let b = back_while(t, 0, t.len() as int, not_nl_pred());
    lemma_back_while(t, 0, t.len() as int, not_nl_pred());
    let l = t.skip(b);
    assert forall|k: int| 0 <= k < l.len() implies #[trigger] l[k] != '\n' by {
        assert(l[k] == t[b + k]);
        assert(not_nl_pred()(t[b + k]));
    }
}

/// What `continuation` inserts holds no line feed and ends with a space.
proof fn lemma_continuation_shape(prev: Seq<char>)
    requires
        continuation(prev) matches Some(Some(_)),
        forall|k: int| 0 <= k < prev.len() ==> #[trigger] prev[k] != '\n',
    ensures
        ({
            let ins = continuation(prev).unwrap().unwrap();
            &&& ins.len() > 0
            &&& ins.last() == ' '
            &&& forall|k: int| 0 <= k < ins.len() ==> #[trigger] ins[k] != '\n'
        }),
{
    let ins = continuation(prev).unwrap().unwrap();
    let w = skip_ws(prev, 0, prev.len() as int);
    lemma_skip_while(prev, 0, prev.len() as int, ws_pred());
    let ind = prev.take(w);
    let x = ins.skip(ind.len() as int);
    assert(ins =~= ind + x);
    match numbered(trim_start(prev)) {
        Some((num, _)) => {
            let d = decimal(saturating_inc(num));
            lemma_decimal_round_trip(saturating_inc(num));
            assert(x =~= d + seq!['.', ' ']);
            assert forall|k: int| 0 <= k < ins.len() implies #[trigger] ins[k] != '\n' by {
                if k < ind.len() {
                    assert(ins[k] == prev[k]);
                } else if k < ind.len() + d.len() {
                    assert(ins[k] == d[k - ind.len()]);
                    assert(is_digit(d[k - ind.len()]));
                } else {
                    assert(ins[k] == seq!['.', ' '][k - ind.len() - d.len()]);
                }
            }
        },
        None => {
            let pre = list_prefix(trim_start(prev)).unwrap();
            assert(x =~= pre);
            assert forall|k: int| 0 <= k < ins.len() implies #[trigger] ins[k] != '\n' by {
                if k < ind.len() {
                    assert(ins[k] == prev[k]);
                } else {
                    assert(ins[k] == pre[k - ind.len()]);
                }
            }
        },
    }
}

/// Enter after a list item continues the list; pressing Enter again right away takes the
/// continuation and that second line feed out again: the text is back to what it was after
/// the first line feed, and the cursor is back after it.
pub proof fn lemma_enter_twice(s: Seq<char>, c: int)
    requires
        smart_newline(s, c).1 matches Some(c1) && c1 > c,
    ensures
        ({
            let s1 = smart_newline(s, c).0;
            let c1 = smart_newline(s, c).1.unwrap();
            let s2 = s1.take(c1) + seq!['\n'] + s1.skip(c1);
            smart_newline(s2, c1 + 1) == (s, Some(c))
        }),
{
    let prev = last_line(s.take(c - 1));
    lemma_last_line_no_newline(s.take(c - 1));
    let remove_start = c - 1 - prev.len();
    assert(continuation(prev) matches Some(Some(_)));
    let ins = continuation(prev).unwrap().unwrap();
    lemma_continuation_shape(prev);
    lemma_continuation_ends(prev);
    let s1 = smart_newline(s, c).0;
    let c1 = c + ins.len();
    assert(s1 == s.take(c) + ins + s.skip(c));
    let s2 = s1.take(c1) + seq!['\n'] + s1.skip(c1);
    assert(s1.take(c1) =~= s.take(c) + ins);
    assert(s1.skip(c1) =~= s.skip(c));
    assert(s2[c1] == '\n');
    // The line before the second line feed is exactly the inserted continuation.
    let before = s2.take(c1);
    assert(before =~= s.take(c) + ins);
    assert(before.last() == ' ');
    assert forall|k: int| c <= k < before.len() implies not_nl_pred()(#[trigger] before[k]) by {
        assert(before[k] == ins[k - c]);
    }
    assert(before[c - 1] == '\n');
    lemma_back_while_stops(before, 0, before.len() as int, not_nl_pred(), c);
    assert(before.skip(c) =~= ins);
    assert(last_line(before) == ins);
    assert(replaced(s2, c, c1 + 1, seq![]) =~= s);
}

/// Enter typed at the end of an indented list item continues the list at the same
/// indentation: in a text of whole lines `before`, a line of whitespace `w` and a list item
/// `item`, then the line feed just typed and anything `after`, the continuation is inserted
/// right after that line feed, starts with `w`, and the cursor goes to its end.
pub proof fn lemma_enter_keeps_indent(
    before: Seq<char>,
    w: Seq<char>,
    item: Seq<char>,
    after: Seq<char>,
)
    requires
        before.len() == 0 || before.last() == '\n',
        forall|k: int| 0 <= k < w.len() ==> is_ws(#[trigger] w[k]) && w[k] != '\n',
        item.len() > 0,
        !is_ws(item[0]),
        forall|k: int| 0 <= k < item.len() ==> #[trigger] item[k] != '\n',
        continuation(w + item) matches Some(Some(_)),
    ensures
        ({
            let s = before + w + item + seq!['\n'] + after;
            let c = (before.len() + w.len() + item.len() + 1) as int;
            let ins = continuation(w + item).unwrap().unwrap();
            &&& smart_newline(s, c) == (before + w + item + seq!['\n'] + ins + after, Some(c + ins.len()))
            &&& ins.take(w.len() as int) == w
        }),
{
    let s = before + w + item + seq!['\n'] + after;
    let line = w + item;
    let c = (before.len() + w.len() + item.len() + 1) as int;
    lemma_continuation_keeps_indent(w, item);
    let ins = continuation(line).unwrap().unwrap();
    assert(s[c - 1] == '\n');
    let t = s.take(c - 1);
    assert(t =~= before + line);
    let b = before.len() as int;
    assert(t.last() == item.last());
    assert forall|k: int| b <= k < t.len() implies not_nl_pred()(#[trigger] t[k]) by {
        if k < b + w.len() {
            assert(t[k] == w[k - b]);
        } else {
            assert(t[k] == item[k - b - w.len()]);
        }
    }
    if b > 0 {
        assert(t[b - 1] == before.last());
    }
    lemma_back_while_stops(t, 0, t.len() as int, not_nl_pred(), b);
    assert(t.skip(b) =~= line);
    assert(last_line(t) == line);
    assert(s.take(c) =~= before + w + item + seq!['\n']);
    assert(s.skip(c) =~= after);
    assert(replaced(s, c, c, ins) =~= before + w + item + seq!['\n'] + ins + after);
}

/// A line holding only indentation and a bare list marker is an empty item.
proof fn lemma_bare_marker(w: Seq<char>, m: Seq<char>, n: nat)
    requires
        forall|k: int| 0 <= k < w.len() ==> is_ws(#[trigger] w[k]),
        m == todo_open() || m == seq!['-', ' '] || m == seq!['>', ' '] || (n <= usize::MAX && m
            == decimal(n) + seq!['.', ' ']),
    ensures
        continuation(w + m) == Some(None::<Seq<char>>),
        m.len() > 0,
        m.last() == ' ',
        forall|k: int| 0 <= k < m.len() ==> #[trigger] m[k] != '\n',
{
    let line = w + m;
    lemma_decimal_round_trip(n);
    if m == decimal(n) + seq!['.', ' '] {
        assert(is_digit(m[0]));
        assert forall|k: int| 0 <= k < m.len() implies #[trigger] m[k] != '\n' by {
            if k < decimal(n).len() {
                assert(m[k] == decimal(n)[k]);
                assert(is_digit(decimal(n)[k]));
            }
        }
    }
    assert(!is_ws(m[0]));
    lemma_ends_after_indent(line, w, m);
    if m == decimal(n) + seq!['.', ' '] {
        lemma_numbered_marker(n);
    } else {
        reveal_with_fuel(skip_while, 3);
        reveal_with_fuel(back_while, 3);
        assert(skip_while(m, 0, m.len() as int, digit_pred()) == 0);
        assert(starts_with(m, m)) by {
            assert(m.take(m.len() as int) =~= m);
        }
        if m == seq!['-', ' '] {
            assert(!starts_with(m, todo_open()));
            assert(!starts_with(m, todo_done()));
        } else if m == seq!['>', ' '] {
            assert(!starts_with(m, todo_open()));
            assert(!starts_with(m, todo_done()));
            assert(!starts_with(m, seq!['-', ' ']));
        }
    }
}

/// Enter typed after an item that holds only its marker ends the list: in a text of whole
/// lines `before`, a line of whitespace `w` and a bare marker `m` (an open to-do, a bullet,
/// a quote, or a number with its dot), then the line feed just typed and anything `after`,
/// that line and the line feed are removed and the cursor goes to where the line began.
pub proof fn lemma_enter_on_empty_item(
    before: Seq<char>,
    w: Seq<char>,
    m: Seq<char>,
    after: Seq<char>,
    n: nat,
)
    requires
        before.len() == 0 || before.last() == '\n',
        forall|k: int| 0 <= k < w.len() ==> is_ws(#[trigger] w[k]) && w[k] != '\n',
        m == todo_open() || m == seq!['-', ' '] || m == seq!['>', ' '] || (n <= usize::MAX && m
            == decimal(n) + seq!['.', ' ']),
    ensures
        ({
            let s = before + w + m + seq!['\n'] + after;
            let c = (before.len() + w.len() + m.len() + 1) as int;
            smart_newline(s, c) == (before + after, Some(before.len() as int))
        }),
{
    let line = w + m;
    let s = before + w + m + seq!['\n'] + after;
    let c = (before.len() + w.len() + m.len() + 1) as int;
    lemma_bare_marker(w, m, n);
    let t = s.take(c - 1);
    assert(t =~= before + line);
    let b = before.len() as int;
    assert(t.last() == m.last());
    assert forall|k: int| b <= k < t.len() implies not_nl_pred()(#[trigger] t[k]) by {
        if k < b + w.len() {
            assert(t[k] == w[k - b]);
        } else {
            assert(t[k] == m[k - b - w.len()]);
        }
    }
    if b > 0 {
        assert(t[b - 1] == before.last());
    }
    lemma_back_while_stops(t, 0, t.len() as int, not_nl_pred(), b);
    assert(t.skip(b) =~= line);
    assert(last_line(t) == line);
    assert(s[c - 1] == '\n');
    assert(replaced(s, b, c, seq![]) =~= before + after);
}

} // verus!

//! Recognising the markdown lines that the editor draws itself: dividers, table
//! separator rows and table cells.
use vstd::prelude::*;
use crate::text::{
    back_whitespace, back_while, back_ws, chars_of, lemma_back_while, lemma_back_while_sub,
    lemma_skip_while, lemma_skip_while_sub, skip_whitespace, skip_while, skip_ws, string_of,
    sub_vec, trim, trim_bounds, trim_start, ws_pred,
};

verus! {

// ---------------------------------------------------------------------------
// Predicates on characters
// ---------------------------------------------------------------------------

/// Equality with one character, as a predicate value.
pub open spec fn char_pred(ch: char) -> spec_fn(char) -> bool {
    |c: char| c == ch
}

/// The table alignment markers `-` and `:`.
pub open spec fn dash_colon_pred() -> spec_fn(char) -> bool {
    |c: char| c == '-' || c == ':'
}

/// Line terminator characters.
pub open spec fn newline_pred() -> spec_fn(char) -> bool {
    |c: char| c == '\n' || c == '\r'
}

/// `s` with every leading and trailing `ch` removed (`str::trim_matches` with a char).
pub open spec fn strip_char(s: Seq<char>, ch: char) -> Seq<char> {
    let a = skip_while(s, 0, s.len() as int, char_pred(ch));
    s.subrange(a, back_while(s, a, s.len() as int, char_pred(ch)))
}

/// Advances past `ch`: the exec counterpart of `skip_while` with `char_pred(ch)`.
fn skip_char(v: &[char], i: usize, hi: usize, ch: char) -> (r: usize)
    requires
        i <= hi <= v@.len(),
    ensures
        r == skip_while(v@, i as int, hi as int, char_pred(ch)),
{
    let mut k = i;
    while k < hi && v[k] == ch
        invariant
            i <= k <= hi <= v@.len(),
            skip_while(v@, k as int, hi as int, char_pred(ch)) == skip_while(
                v@,
                i as int,
                hi as int,
                char_pred(ch),
            ),
        decreases hi - k,
    {
        k += 1;
    }
    k
}

/// Backs up over `ch`: the exec counterpart of `back_while` with `char_pred(ch)`.
fn back_char(v: &[char], lo: usize, j: usize, ch: char) -> (r: usize)
    requires
        lo <= j <= v@.len(),
    ensures
        r == back_while(v@, lo as int, j as int, char_pred(ch)),
{
    let mut k = j;
    while k > lo && v[k - 1] == ch
        invariant
            lo <= k <= j <= v@.len(),
            back_while(v@, lo as int, k as int, char_pred(ch)) == back_while(
                v@,
                lo as int,
                j as int,
                char_pred(ch),
            ),
        decreases k - lo,
    {
        k -= 1;
    }
    k
}

/// The bounds of `v[lo..hi]` with surrounding `ch` removed.
fn strip_bounds(v: &[char], lo: usize, hi: usize, ch: char) -> (r: (usize, usize))
    requires
        lo <= hi <= v@.len(),
    ensures
        lo <= r.0 <= r.1 <= hi,
        v@.subrange(r.0 as int, r.1 as int) == strip_char(v@.subrange(lo as int, hi as int), ch),
{
    let a = skip_char(v, lo, hi, ch);
    proof {
        lemma_skip_while(v@, lo as int, hi as int, char_pred(ch));
    }
    let b = back_char(v, a, hi, ch);
    proof {
        lemma_back_while(v@, a as int, hi as int, char_pred(ch));
        lemma_skip_while_sub(v@, lo as int, lo as int, hi as int, hi as int, char_pred(ch));
        lemma_back_while_sub(v@, lo as int, a as int, hi as int, hi as int, char_pred(ch));
    }
    (a, b)
}

// ---------------------------------------------------------------------------
// Dividers
// ---------------------------------------------------------------------------

/// A horizontal rule: three dashes, stars or underscores.
pub open spec fn divider_seq(t: Seq<char>) -> bool {
    ||| t == seq!['-', '-', '-']
    ||| t == seq!['*', '*', '*']
    ||| t == seq!['_', '_', '_']
}

/// A line that, trimmed, is a horizontal rule.
pub open spec fn divider_line(line: Seq<char>) -> bool {
    divider_seq(trim(line))
}

/// Whether `line`, trimmed, is `---`, `***` or `___`.
pub fn is_divider_line(line: &str) -> (b: bool)
    ensures
        b == divider_line(line@),
{
    let v = chars_of(line);
    let (a, b) = trim_bounds(&v, 0, v.len());
    assert(v@.subrange(0, v@.len() as int) == v@);
    let t = Ghost(v@.subrange(a as int, b as int));
    assert(trim(line@) == t@);
    if b - a != 3 {
        assert(seq!['-', '-', '-'].len() == 3);
        assert(seq!['*', '*', '*'].len() == 3);
        assert(seq!['_', '_', '_'].len() == 3);
        return false;
    }
    let c = v[a];
    let r = (c == '-' || c == '*' || c == '_') && v[a + 1] == c && v[a + 2] == c;
    proof {
        assert(t@.len() == 3);
        assert(t@[0] == c && t@[1] == v@[a + 1] && t@[2] == v@[a + 2]);
        if r {
            assert(t@ =~= seq![c, c, c]);
        }
    }
    r
}

// ---------------------------------------------------------------------------
// Table separator rows
// ---------------------------------------------------------------------------

/// A table separator cell: trimmed, non-empty, and at least three dashes once the
/// alignment colons at either end are removed.
pub open spec fn sep_cell(cell: Seq<char>) -> bool {
    let t = trim(cell);
    let d = strip_char(t, ':');
    &&& t.len() > 0
    &&& d.len() >= 3
    &&& forall|i: int| 0 <= i < d.len() ==> d[i] == '-'
}

/// `sep_cell` on `v[lo..hi]`.
#[verifier::loop_isolation(false)]
pub fn sep_cell_range(v: &[char], lo: usize, hi: usize) -> (b: bool)
    requires
        lo <= hi <= v@.len(),
    ensures
        b == sep_cell(v@.subrange(lo as int, hi as int)),
{
    let (a, b) = trim_bounds(v, lo, hi);
    if a == b {
        assert(trim(v@.subrange(lo as int, hi as int)).len() == 0);
        return false;
    }
    let (c, d) = strip_bounds(v, a, b, ':');
    let ghost dseq = v@.subrange(c as int, d as int);
    if d - c < 3 {
        return false;
    }
    let mut k = c;
    while k < d
        invariant
            c <= k <= d <= v@.len(),
            dseq == v@.subrange(c as int, d as int),
            forall|i: int| 0 <= i < k - c ==> dseq[i] == '-',
        decreases d - k,
    {
        if v[k] != '-' {
            assert(dseq[k - c] != '-');
            return false;
        }
        k += 1;
    }
    true
}

/// Whether `cell` is a table separator cell such as `---`, `:---` or ` :---: `.
pub fn is_table_separator_cell(cell: &str) -> (b: bool)
    ensures
        b == sep_cell(cell@),
{
    let v = chars_of(cell);
    assert(v@.subrange(0, v@.len() as int) == v@);
    sep_cell_range(&v, 0, v.len())
}

/// `s[i..j]` is one of the pieces of `s` split at `|` (`str::split('|')`).
pub open spec fn is_piece(s: Seq<char>, i: int, j: int) -> bool {
    &&& 0 <= i <= j <= s.len()
    &&& (i == 0 || s[i - 1] == '|')
    &&& (j == s.len() || s[j] == '|')
    &&& forall|k: int| i <= k < j ==> s[k] != '|'
}

/// A table separator row such as `|---|:---:|`: trimmed, it holds a `|`, and once
/// the outer `|` are removed every `|`-separated piece is a separator cell.
pub open spec fn table_divider_line(line: Seq<char>) -> bool {
    let t = trim(line);
    let u = strip_char(t, '|');
    &&& exists|k: int| 0 <= k < t.len() && t[k] == '|'
    &&& forall|i: int, j: int| #[trigger] is_piece(u, i, j) ==> sep_cell(u.subrange(i, j))
}

/// Whether `line` is a table separator row.
pub fn is_table_divider_line(line: &str) -> (r: bool)
    ensures
        r == table_divider_line(line@),
{
    let v = chars_of(line);
    let (a, b) = trim_bounds(&v, 0, v.len());
    assert(v@.subrange(0, v@.len() as int) == v@);
    let ghost t = v@.subrange(a as int, b as int);
    assert(trim(line@) == t);
    let mut k = a;
    while k < b && v[k] != '|'
        invariant
            a <= k <= b <= v@.len(),
            forall|i: int| a <= i < k ==> v@[i] != '|',
        decreases b - k,
    {
        k += 1;
    }
    if k == b {
        assert forall|i: int| 0 <= i < t.len() implies t[i] != '|' by {
            assert(t[i] == v@[a + i]);
        }
        return false;
    }
    assert(t[k - a] == '|');
    let (c, d) = strip_bounds(&v, a, b, '|');
    proof {
        assert(v@.subrange(a as int, b as int) == t);
    }
    let u = sub_vec(&v, c, d);
    let ulen = u.len();
    let mut p: usize = 0;
    loop
        invariant
            ulen == u@.len(),
            u@ == strip_char(trim(line@), '|'),
            0 <= k - a < trim(line@).len(),
            trim(line@)[k - a] == '|',
            p <= ulen,
            p == 0 || u@[p - 1] == '|',
            forall|i: int, j: int| #[trigger] is_piece(u@, i, j) && i < p ==> sep_cell(
                u@.subrange(i, j),
            ),
        ensures
            p <= ulen,
            forall|i: int, j: int| #[trigger] is_piece(u@, i, j) ==> sep_cell(u@.subrange(i, j)),
        decreases ulen - p,
    {
        let mut q = p;
        while q < ulen && u[q] != '|'
            invariant
                p <= q <= ulen,
                ulen == u@.len(),
                forall|i: int| p <= i < q ==> u@[i] != '|',
            decreases ulen - q,
        {
            q += 1;
        }
        assert(is_piece(u@, p as int, q as int));
        if !sep_cell_range(&u, p, q) {
            return false;
        }
        proof {
            assert forall|i: int, j: int| #[trigger] is_piece(u@, i, j) && i < q + 1 implies sep_cell(
                u@.subrange(i, j),
            ) by {
                if i >= p {
                    if i > p {
                        assert(u@[i - 1] == '|');
                    }
                    assert(i == p);
                    if j < q {
                        assert(u@[j] == '|');
                    }
                    if j > q {
                        assert(u@[q as int] == '|');
                    }
                    assert(j == q);
                }
            }
        }
        if q == ulen {
            proof {
                assert forall|i: int, j: int| #[trigger] is_piece(u@, i, j) implies sep_cell(
                    u@.subrange(i, j),
                ) by {
                    if i > q {
                    }
                }
            }
            break;
        }
        p = q + 1;
    }
    true
}

/// A line that the editor hides from note titles: a divider or a table separator row.
pub open spec fn visual_only_line(line: Seq<char>) -> bool {
    divider_line(line) || table_divider_line(line)
}

/// Whether `line` is only drawn, not read: a divider or a table separator row.
pub fn is_visual_only_markdown_line(line: &str) -> (b: bool)
    ensures
        b == visual_only_line(line@),
{
    is_divider_line(line) || is_table_divider_line(line)
}

// ---------------------------------------------------------------------------
// Table cells
// ---------------------------------------------------------------------------

/// One cell of a table row, with character offsets into the row.
#[derive(Clone, Debug, PartialEq, Eq)]
pub struct TableCell {
    /// The text shown for the cell.
    pub text: String,
    /// Start of the characters between the two `|`.
    pub raw_start: usize,
    /// End of the characters between the two `|`.
    pub raw_end: usize,
    /// Start of the shown text.
    pub clean_start: usize,
    /// End of the shown text.
    pub clean_end: usize,
}

/// Bounds of the text shown for the raw cell `s[a..b]`: surrounding whitespace is
/// dropped; a separator cell shows nothing; otherwise alignment markers `-`/`:` and
/// then whitespace are dropped from both ends.
pub open spec fn clean_bounds(s: Seq<char>, a: int, b: int) -> (int, int) {
    let a1 = skip_ws(s, a, b);
    let b1 = back_ws(s, a1, b);
    if sep_cell(s.subrange(a1, b1)) {
        (a1, a1)
    } else {
        let a2 = skip_while(s, a1, b1, dash_colon_pred());
        let b2 = back_while(s, a2, b1, dash_colon_pred());
        let a3 = skip_ws(s, a2, b2);
        let b3 = back_ws(s, a3, b2);
        (a3, b3)
    }
}

/// The text shown for the raw cell `s[a..b]`.
pub open spec fn cell_text(s: Seq<char>, a: int, b: int) -> Seq<char> {
    s.subrange(clean_bounds(s, a, b).0, clean_bounds(s, a, b).1)
}

/// `cell` is the cell built from the raw range `s[a..b]`.
pub open spec fn is_cell_of(cell: TableCell, s: Seq<char>, a: int, b: int) -> bool {
    &&& cell.raw_start == a
    &&& cell.raw_end == b
    &&& cell.clean_start == clean_bounds(s, a, b).0
    &&& cell.clean_end == clean_bounds(s, a, b).1
    &&& cell.text@ == cell_text(s, a, b)
}

/// Advances past `-` and `:`.
fn skip_dash_colon(v: &[char], i: usize, hi: usize) -> (r: usize)
    requires
        i <= hi <= v@.len(),
    ensures
        r == skip_while(v@, i as int, hi as int, dash_colon_pred()),
{
    let mut k = i;
    while k < hi && (v[k] == '-' || v[k] == ':')
        invariant
            i <= k <= hi <= v@.len(),
            skip_while(v@, k as int, hi as int, dash_colon_pred()) == skip_while(
                v@,
                i as int,
                hi as int,
                dash_colon_pred(),
            ),
        decreases hi - k,
    {
        k += 1;
    }
    k
}

/// Backs up over `-` and `:`.
fn back_dash_colon(v: &[char], lo: usize, j: usize) -> (r: usize)
    requires
        lo <= j <= v@.len(),
    ensures
        r == back_while(v@, lo as int, j as int, dash_colon_pred()),
{
    let mut k = j;
    while k > lo && (v[k - 1] == '-' || v[k - 1] == ':')
        invariant
            lo <= k <= j <= v@.len(),
            back_while(v@, lo as int, k as int, dash_colon_pred()) == back_while(
                v@,
                lo as int,
                j as int,
                dash_colon_pred(),
            ),
        decreases k - lo,
    {
        k -= 1;
    }
    k
}

/// The cell made of the characters `chars[raw_start..raw_end]`.
pub fn build_table_cell(chars: &[char], raw_start: usize, raw_end: usize) -> (cell: TableCell)
    requires
        raw_start <= raw_end <= chars@.len(),
    ensures
        is_cell_of(cell, chars@, raw_start as int, raw_end as int),
        raw_start <= cell.clean_start <= cell.clean_end <= raw_end,
{
    let s = Ghost(chars@);
    let a1 = skip_whitespace(chars, raw_start, raw_end);
    proof {
        lemma_skip_while(s@, raw_start as int, raw_end as int, ws_pred());
    }
    let b1 = back_whitespace(chars, a1, raw_end);
    proof {
        lemma_back_while(s@, a1 as int, raw_end as int, ws_pred());
    }
    if sep_cell_range(chars, a1, b1) {
        assert(s@.subrange(a1 as int, a1 as int) =~= Seq::<char>::empty());
        return TableCell {
            text: String::new(),
            raw_start,
            raw_end,
            clean_start: a1,
            clean_end: a1,
        };
    }
    let a2 = skip_dash_colon(chars, a1, b1);
    proof {
        lemma_skip_while(s@, a1 as int, b1 as int, dash_colon_pred());
    }
    let b2 = back_dash_colon(chars, a2, b1);
    proof {
        lemma_back_while(s@, a2 as int, b1 as int, dash_colon_pred());
    }
    let a3 = skip_whitespace(chars, a2, b2);
    proof {
        lemma_skip_while(s@, a2 as int, b2 as int, ws_pred());
    }
    let b3 = back_whitespace(chars, a3, b2);
    proof {
        lemma_back_while(s@, a3 as int, b2 as int, ws_pred());
    }
    TableCell {
        text: string_of(chars, a3, b3),
        raw_start,
        raw_end,
        clean_start: a3,
        clean_end: b3,
    }
}

/// A line whose first non-whitespace character is `|`.
pub open spec fn starts_table_row(s: Seq<char>) -> bool {
    let t = trim_start(s);
    t.len() > 0 && t[0] == '|'
}

/// The end of `s` without its trailing line terminators.
pub open spec fn line_end(s: Seq<char>) -> int {
    back_while(s, 0, s.len() as int, newline_pred())
}

/// The positions of `|` in `s[..e]`, in increasing order.
pub open spec fn pipe_positions(s: Seq<char>, e: int) -> Seq<int>
    decreases e,
{
    if e <= 0 {
        seq![]
    } else if s[e - 1] == '|' {
        pipe_positions(s, e - 1).push(e - 1)
    } else {
        pipe_positions(s, e - 1)
    }
}

/// The raw ranges of the cells of a table row: the spans between consecutive `|`,
/// then the text after the last `|` when there is any before the line end.
pub open spec fn row_ranges(s: Seq<char>) -> Seq<(int, int)> {
    let e = line_end(s);
    let ps = pipe_positions(s, e);
    if !starts_table_row(s) || ps.len() == 0 {
        seq![]
    } else {
        let inner = Seq::new((ps.len() - 1) as nat, |k: int| (ps[k] + 1, ps[k + 1]));
        if ps.last() + 1 < e {
            inner.push((ps.last() + 1, e))
        } else {
            inner
        }
    }
}

/// `cells` are the cells of the table row `s`.
pub open spec fn is_row_of(cells: Seq<TableCell>, s: Seq<char>) -> bool {
    &&& cells.len() == row_ranges(s).len()
    &&& forall|k: int|
        0 <= k < cells.len() ==> is_cell_of(
            #[trigger] cells[k],
            s,
            row_ranges(s)[k].0,
            row_ranges(s)[k].1,
        )
}

/// The cells of a table row; empty when `line` is not a table row.
pub fn parse_table_cells(line: &str) -> (cells: Vec<TableCell>)
    ensures
        is_row_of(cells@, line@),
{
    let v = chars_of(line);
    let n = v.len();
    let a = skip_whitespace(&v, 0, n);
    proof {
        lemma_skip_while(v@, 0, n as int, ws_pred());
        assert(trim_start(line@) == v@.subrange(a as int, n as int));
    }
    if a == n || v[a] != '|' {
        return Vec::new();
    }
    let mut e = n;
    while e > 0 && (v[e - 1] == '\n' || v[e - 1] == '\r')
        invariant
            e <= n == v@.len(),
            back_while(v@, 0, e as int, newline_pred()) == line_end(v@),
        decreases e,
    {
        e -= 1;
    }
    let mut cells: Vec<TableCell> = Vec::new();
    let mut prev: Option<usize> = None;
    let mut i: usize = 0;
    while i < e
        invariant
            e <= n == v@.len(),
            e == line_end(v@),
            v@ == line@,
            i <= e,
            prev is None <==> pipe_positions(v@, i as int).len() == 0,
            prev matches Some(p) ==> p == pipe_positions(v@, i as int).last() && p < i,
            pipe_positions(v@, i as int).len() > 0 ==> cells@.len() == pipe_positions(
                v@,
                i as int,
            ).len() - 1,
            pipe_positions(v@, i as int).len() == 0 ==> cells@.len() == 0,
            forall|k: int|
                0 <= k < cells@.len() ==> is_cell_of(
                    #[trigger] cells@[k],
                    v@,
                    pipe_positions(v@, i as int)[k] + 1,
                    pipe_positions(v@, i as int)[k + 1],
                ),
        decreases e - i,
    {
        if v[i] == '|' {
            if let Some(p) = prev {
                let cell = build_table_cell(v.as_slice(), p + 1, i);
                cells.push(cell);
            }
            prev = Some(i);
        }
        i += 1;
    }
    if let Some(p) = prev {
        if p + 1 < e {
            let cell = build_table_cell(v.as_slice(), p + 1, e);
            cells.push(cell);
        }
    }
    proof {
        let ps = pipe_positions(v@, e as int);
        assert(ps.len() > 0) by {
            lemma_pipe_in_row(v@, a as int, e as int);
        }
    }
    cells
}

/// A row that starts with `|` has a `|` before its line end.
proof fn lemma_pipe_in_row(s: Seq<char>, a: int, e: int)
    requires
        0 <= a < s.len(),
        s[a] == '|',
        e == line_end(s),
    ensures
        pipe_positions(s, e).len() > 0,
{
    lemma_back_while(s, 0, s.len() as int, newline_pred());
    assert(a < e) by {
        if a >= e {
            assert(newline_pred()(s[a]));
        }
    }
    lemma_pipe_prefix_nonempty(s, a, e);
}

/// Once a `|` lies before `e`, `pipe_positions(s, e)` is not empty.
proof fn lemma_pipe_prefix_nonempty(s: Seq<char>, a: int, e: int)
    requires
        0 <= a < e <= s.len(),
        s[a] == '|',
    ensures
        pipe_positions(s, e).len() > 0,
    decreases e,
{
    if e - 1 != a {
        lemma_pipe_prefix_nonempty(s, a, e - 1);
    }
}

/// The text of each cell of the table row `line`.
pub fn table_cells(line: &str) -> (texts: Vec<String>)
    ensures
        texts@.len() == row_ranges(line@).len(),
        forall|k: int|
            0 <= k < texts@.len() ==> #[trigger] texts@[k]@ == cell_text(
                line@,
                row_ranges(line@)[k].0,
                row_ranges(line@)[k].1,
            ),
{
    let cells = parse_table_cells(line);
    let mut texts: Vec<String> = Vec::new();
    let mut k: usize = 0;
    while k < cells.len()
        invariant
            is_row_of(cells@, line@),
            k <= cells@.len(),
            texts@.len() == k,
            forall|j: int|
                0 <= j < k ==> #[trigger] texts@[j]@ == cell_text(
                    line@,
                    row_ranges(line@)[j].0,
                    row_ranges(line@)[j].1,
                ),
        decreases cells@.len() - k,
    {
        let t = cells[k].text.clone();
        assert(is_cell_of(cells@[k as int], line@, row_ranges(line@)[k as int].0, row_ranges(line@)[k as int].1));
        texts.push(t);
        k += 1;
    }
    texts
}

/// The cell that the cursor offset `local_cursor` (relative to the row start) falls in:
/// the first whose raw end is not before it, else the last; `None` when the row has no cells.
pub fn table_cell_at_cursor(cells: &[TableCell], local_cursor: usize) -> (r: Option<(usize, &TableCell)>)
    ensures
        r is None <==> cells@.len() == 0,
        r matches Some((i, cell)) ==> {
            &&& i < cells@.len()
            &&& *cell == cells@[i as int]
            &&& forall|j: int| 0 <= j < i ==> local_cursor > #[trigger] cells@[j].raw_end
            &&& (local_cursor <= cells@[i as int].raw_end || i == cells@.len() - 1)
        },
{
    let mut index: usize = 0;
    while index < cells.len()
        invariant
            index <= cells@.len(),
            forall|j: int| 0 <= j < index ==> local_cursor > #[trigger] cells@[j].raw_end,
        decreases cells@.len() - index,
    {
        if local_cursor <= cells[index].raw_end {
            return Some((index, &cells[index]));
        }
        index += 1;
    }
    if cells.len() == 0 {
        None
    } else {
        let last = cells.len() - 1;
        Some((last, &cells[last]))
    }
}

/// How many characters of the shown text lie before the row-relative cursor `local_cursor`.
pub open spec fn display_offset(cell: TableCell, local_cursor: int) -> int {
    if cell.text@.len() == 0 || local_cursor <= cell.clean_start {
        0
    } else if local_cursor >= cell.clean_end {
        cell.text@.len() as int
    } else {
        local_cursor - cell.clean_start
    }
}

/// The offset, within the shown text of `cell`, at which a cursor at `local_cursor` is drawn.
pub fn table_cell_display_offset(cell: &TableCell, local_cursor: usize) -> (r: usize)
    ensures
        r == display_offset(*cell, local_cursor as int),
{
    let count = cell.text.as_str().unicode_len();
    if count == 0 || local_cursor <= cell.clean_start {
        return 0;
    }
    if local_cursor >= cell.clean_end {
        return count;
    }
    local_cursor - cell.clean_start
}

/// Whether `line` is a table row: its first non-whitespace character is `|`.
pub fn is_table_row(line: &str) -> (b: bool)
    ensures
        b == starts_table_row(line@),
{
    let v = chars_of(line);
    let n = v.len();
    let a = skip_whitespace(&v, 0, n);
    proof {
        lemma_skip_while(v@, 0, n as int, ws_pred());
        assert(trim_start(line@) == v@.subrange(a as int, n as int));
    }
    a < n && v[a] == '|'
}

/// The number of columns a block of table rows shows: the fewest cells of any row that has
/// cells; `None` when no row has any.
pub fn table_column_count(rows: &[Vec<TableCell>]) -> (r: Option<usize>)
    ensures
        r is None <==> forall|i: int| 0 <= i < rows@.len() ==> #[trigger] rows@[i]@.len() == 0,
        r matches Some(c) ==> {
            &&& c > 0
            &&& exists|i: int| 0 <= i < rows@.len() && #[trigger] rows@[i]@.len() == c
            &&& forall|i: int| 0 <= i < rows@.len() && #[trigger] rows@[i]@.len() > 0 ==> c <= rows@[i]@.len()
        },
{
    let mut best: Option<usize> = None;
    let mut i: usize = 0;
    while i < rows.len()
        invariant
            i <= rows@.len(),
            best is None <==> forall|j: int| 0 <= j < i ==> #[trigger] rows@[j]@.len() == 0,
            best matches Some(c) ==> {
                &&& c > 0
                &&& exists|j: int| 0 <= j < i && #[trigger] rows@[j]@.len() == c
                &&& forall|j: int| 0 <= j < i && #[trigger] rows@[j]@.len() > 0 ==> c <= rows@[j]@.len()
            },
        decreases rows@.len() - i,
    {
        let count = rows[i].len();
        if count > 0 {
            match best {
                Some(c) => {
                    if count < c {
                        best = Some(count);
                    }
                },
                None => {
                    best = Some(count);
                },
            }
        }
        assert(rows@[i as int]@.len() == count);
        i += 1;
    }
    best
}

/// The end of the run of `true` in `f` that starts at `i`.
pub open spec fn run_end(f: Seq<bool>, i: int) -> int
    decreases f.len() - i,
{
    if 0 <= i < f.len() && f[i] {
        run_end(f, i + 1)
    } else {
        i
    }
}

/// The maximal runs of `true` in `f` from index `i` on, as `[start, end)` ranges in order.
pub open spec fn runs_from(f: Seq<bool>, i: int) -> Seq<(int, int)>
    decreases f.len() - i,
{
    if i < 0 || i >= f.len() {
        seq![]
    } else if !f[i] {
        runs_from(f, i + 1)
    } else {
        proof {
            lemma_run_end(f, i);
        }
        seq![(i, run_end(f, i))] + runs_from(f, run_end(f, i))
    }
}

/// A run starting at `i` ends after `i`, and everything in it is `true`.
pub proof fn lemma_run_end(f: Seq<bool>, i: int)
    requires
        0 <= i <= f.len(),
    ensures
        i <= run_end(f, i) <= f.len(),
        forall|k: int| i <= k < run_end(f, i) ==> #[trigger] f[k],
        run_end(f, i) < f.len() ==> !f[run_end(f, i)],
        i < f.len() && f[i] ==> run_end(f, i) > i,
    decreases f.len() - i,
{
    if i < f.len() && f[i] {
        lemma_run_end(f, i + 1);
    }
}

/// The blocks of consecutive table lines: given which lines are table rows, the maximal
/// runs of them, as `[first, end)` line ranges in order.
pub fn table_blocks(is_row: &[bool]) -> (blocks: Vec<(usize, usize)>)
    ensures
        blocks@.len() == runs_from(is_row@, 0).len(),
        forall|k: int|
            0 <= k < blocks@.len() ==> (#[trigger] blocks@[k]).0 == runs_from(is_row@, 0)[k].0
                && blocks@[k].1 == runs_from(is_row@, 0)[k].1,
{
    let ghost f = is_row@;
    let n = is_row.len();
    let mut blocks: Vec<(usize, usize)> = Vec::new();
    let ghost mut done: Seq<(int, int)> = seq![];
    let mut index: usize = 0;
    while index < n
        invariant
            f == is_row@,
            n == f.len(),
            index <= n,
            runs_from(f, 0) == done + runs_from(f, index as int),
            blocks@.len() == done.len(),
            forall|k: int|
                0 <= k < blocks@.len() ==> (#[trigger] blocks@[k]).0 == done[k].0 && blocks@[k].1
                    == done[k].1,
        decreases n - index,
    {
        if !is_row[index] {
            index += 1;
            continue;
        }
        let start = index;
        while index < n && is_row[index]
            invariant
                start <= index <= n == f.len(),
                f == is_row@,
                run_end(f, index as int) == run_end(f, start as int),
            decreases n - index,
        {
            index += 1;
        }
        proof {
            lemma_run_end(f, start as int);
            let old_done = done;
            done = done.push((start as int, index as int));
            assert(runs_from(f, start as int) == seq![(start as int, index as int)] + runs_from(
                f,
                index as int,
            ));
            assert(done + runs_from(f, index as int) =~= old_done + runs_from(f, start as int));
        }
        blocks.push((start, index));
    }
    assert(runs_from(f, n as int) =~= Seq::<(int, int)>::empty());
    assert(done + Seq::<(int, int)>::empty() =~= done);
    blocks
}

} // verus!

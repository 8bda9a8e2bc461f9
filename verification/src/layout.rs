//! How the body text is styled line by line: code blocks, headings, quotes, to-do items,
//! and the lines the editor hides because it draws them itself.
use vstd::prelude::*;
use crate::editing::{find_newline, line_end_from, not_nl_pred, todo_done, todo_open};
use crate::markdown::{divider_line, is_divider_line, is_table_divider_line, table_divider_line};
use crate::text::{
    back_whitespace, chars_of, lemma_back_while, lemma_back_while_sub,
    lemma_skip_while, lemma_skip_while_sub, range_starts_with, skip_whitespace, skip_while,
    starts_with, string_of, trim_end, trim_start, ws_pred, is_ws, lemma_skip_while_stops, back_while, trim, lemma_back_while_stops,
};

verus! {

/// The format a line starts from.
#[derive(Clone, Copy, Debug, PartialEq, Eq)]
pub enum LineBase {
    /// Ordinary text.
    Normal,
    /// Inside or on the fence of a code block.
    Code,
    /// A heading of the given level (1 to 3).
    Heading(usize),
    /// A quote.
    Quote,
}

/// How one span of a line is drawn.
#[derive(Clone, Copy, Debug, PartialEq, Eq)]
pub enum SpanStyle {
    /// Shown in the line's format.
    Text(LineBase),
    /// A heading or quote marker, hidden in a tiny font.
    Marker(LineBase),
    /// A to-do marker, hidden in a monospace font (a box is drawn over it).
    Checkbox(LineBase),
    /// The text of a done to-do item: greyed and struck through.
    Done(LineBase),
    /// A divider line, hidden (a rule is drawn over it).
    Hidden(LineBase),
    /// A table line, hidden in a monospace font (the table is drawn over it).
    Table,
}

/// A styled range of the text, in character indices.
#[derive(Clone, Copy, Debug, PartialEq, Eq)]
pub struct Span {
    /// First character.
    pub start: usize,
    /// One past the last character.
    pub end: usize,
    /// How the range is drawn.
    pub style: SpanStyle,
}

/// The span as plain values.
pub open spec fn span_view(sp: Span) -> (int, int, SpanStyle) {
    (sp.start as int, sp.end as int, sp.style)
}

/// A code fence: three backticks.
pub open spec fn fence() -> Seq<char> {
    seq!['`', '`', '`']
}

/// The base format of `line`, given whether it is code.
pub open spec fn line_base(line: Seq<char>, code: bool) -> LineBase {
    let t = trim_start(line);
    if code {
        LineBase::Code
    } else if starts_with(t, seq!['#', ' ']) {
        LineBase::Heading(1)
    } else if starts_with(t, seq!['#', '#', ' ']) {
        LineBase::Heading(2)
    } else if starts_with(t, seq!['#', '#', '#', ' ']) {
        LineBase::Heading(3)
    } else if starts_with(t, seq!['>', ' ']) {
        LineBase::Quote
    } else {
        LineBase::Normal
    }
}

/// A line split at its marker: `[0, off)` in `body` style (left out when empty),
/// `[off, off + len)` in `marker` style, and the rest in `rest` style; all shifted by `at`.
pub open spec fn marked(
    at: int,
    n: int,
    off: int,
    len: int,
    body: SpanStyle,
    marker: SpanStyle,
    rest: SpanStyle,
) -> Seq<(int, int, SpanStyle)> {
    let lead = if off > 0 {
        seq![(at, at + off, body)]
    } else {
        seq![]
    };
    lead + seq![(at + off, at + off + len, marker), (at + off + len, at + n, rest)]
}

/// The spans of `line` (which starts at `at` in the text) and whether a code block is open
/// after it, given whether one was open before it.
pub open spec fn line_spans(line: Seq<char>, at: int, in_code: bool) -> (bool, Seq<(int, int, SpanStyle)>) {
    let is_fence = starts_with(line, fence());
    let now_code = if is_fence {
        !in_code
    } else {
        in_code
    };
    let base = line_base(line, now_code || is_fence);
    let n = line.len() as int;
    let off = skip_while(line, 0, n, ws_pred());
    let t = trim_start(line);
    let spans = match base {
        LineBase::Heading(level) => marked(
            at,
            n,
            off,
            level + 1,
            SpanStyle::Text(base),
            SpanStyle::Marker(base),
            SpanStyle::Text(base),
        ),
        LineBase::Quote => marked(
            at,
            n,
            off,
            2,
            SpanStyle::Text(base),
            SpanStyle::Marker(base),
            SpanStyle::Text(base),
        ),
        _ => {
            if starts_with(t, todo_open()) || starts_with(t, todo_done()) {
                marked(
                    at,
                    n,
                    off,
                    6,
                    SpanStyle::Text(base),
                    SpanStyle::Checkbox(base),
                    if starts_with(t, todo_done()) {
                        SpanStyle::Done(base)
                    } else {
                        SpanStyle::Text(base)
                    },
                )
            } else if divider_line(trim_end(t)) {
                seq![(at, at + n, SpanStyle::Hidden(base))]
            } else if table_divider_line(trim_end(t)) || (t.len() > 0 && t[0] == '|') {
                seq![(at, at + n, SpanStyle::Table)]
            } else {
                seq![(at, at + n, SpanStyle::Text(base))]
            }
        },
    };
    (now_code, spans)
}

/// The spans of the lines of `s` from the line starting at `p` on, given whether a code
/// block is open before it.
pub open spec fn spans_from(s: Seq<char>, p: int, in_code: bool) -> Seq<(int, int, SpanStyle)>
    decreases s.len() - p,
{
    if 0 <= p < s.len() {
        let e = line_end_from(s, p);
        let r = line_spans(s.subrange(p, e), p, in_code);
        proof {
            lemma_skip_while(s, p, s.len() as int, not_nl_pred());
        }
        r.1 + spans_from(s, e, r.0)
    } else {
        seq![]
    }
}

/// The spans of the whole text; an empty text has one empty span of ordinary text.
pub open spec fn text_spans(s: Seq<char>) -> Seq<(int, int, SpanStyle)> {
    if s.len() == 0 {
        seq![(0, 0, SpanStyle::Text(LineBase::Normal))]
    } else {
        spans_from(s, 0, false)
    }
}

/// Appends the spans of the marked line `[at, at + n)`.
fn push_marked(
    out: &mut Vec<Span>,
    at: usize,
    n: usize,
    off: usize,
    len: usize,
    body: SpanStyle,
    marker: SpanStyle,
    rest: SpanStyle,
)
    requires
        off + len <= n,
        at + n <= usize::MAX,
    ensures
        final(out)@.map_values(|sp: Span| span_view(sp)) == old(out)@.map_values(
            |sp: Span| span_view(sp),
        ) + marked(at as int, n as int, off as int, len as int, body, marker, rest),
{
    let ghost before = out@.map_values(|sp: Span| span_view(sp));
    if off > 0 {
        out.push(Span { start: at, end: at + off, style: body });
    }
    out.push(Span { start: at + off, end: at + off + len, style: marker });
    out.push(Span { start: at + off + len, end: at + n, style: rest });
    assert(out@.map_values(|sp: Span| span_view(sp)) =~= before + marked(
        at as int,
        n as int,
        off as int,
        len as int,
        body,
        marker,
        rest,
    ));
}

/// Appends the spans of the line `v[p..e]` and says whether a code block is open after it.
#[verifier::rlimit(30)]
fn push_line_spans(out: &mut Vec<Span>, v: &[char], p: usize, e: usize, in_code: bool) -> (now_code: bool)
    requires
        p <= e <= v@.len(),
    ensures
        now_code == line_spans(v@.subrange(p as int, e as int), p as int, in_code).0,
        final(out)@.map_values(|sp: Span| span_view(sp)) == old(out)@.map_values(
            |sp: Span| span_view(sp),
        ) + line_spans(v@.subrange(p as int, e as int), p as int, in_code).1,
{
    let ghost line = v@.subrange(p as int, e as int);
    let ghost before = out@.map_values(|sp: Span| span_view(sp));
    let n = e - p;
    let is_fence = range_starts_with(v, p, e, &['`', '`', '`']);
    let now_code = if is_fence {
        !in_code
    } else {
        in_code
    };
    let w = skip_whitespace(v, p, e);
    proof {
        lemma_skip_while(v@, p as int, e as int, ws_pred());
        lemma_skip_while_sub(v@, p as int, p as int, e as int, e as int, ws_pred());
        assert(trim_start(line) == v@.subrange(w as int, e as int));
    }
    let off = w - p;
    let base = if now_code || is_fence {
        LineBase::Code
    } else if range_starts_with(v, w, e, &['#', ' ']) {
        LineBase::Heading(1)
    } else if range_starts_with(v, w, e, &['#', '#', ' ']) {
        LineBase::Heading(2)
    } else if range_starts_with(v, w, e, &['#', '#', '#', ' ']) {
        LineBase::Heading(3)
    } else if range_starts_with(v, w, e, &['>', ' ']) {
        LineBase::Quote
    } else {
        LineBase::Normal
    };
    assert(base == line_base(line, now_code || is_fence));
    match base {
        LineBase::Heading(level) => {
            push_marked(
                out,
                p,
                n,
                off,
                level + 1,
                SpanStyle::Text(base),
                SpanStyle::Marker(base),
                SpanStyle::Text(base),
            );
            return now_code;
        },
        LineBase::Quote => {
            push_marked(
                out,
                p,
                n,
                off,
                2,
                SpanStyle::Text(base),
                SpanStyle::Marker(base),
                SpanStyle::Text(base),
            );
            return now_code;
        },
        _ => {},
    }
    let open = range_starts_with(v, w, e, &['-', ' ', '[', ' ', ']', ' ']);
    let done = range_starts_with(v, w, e, &['-', ' ', '[', 'x', ']', ' ']);
    if open || done {
        let rest = if done {
            SpanStyle::Done(base)
        } else {
            SpanStyle::Text(base)
        };
        push_marked(out, p, n, off, 6, SpanStyle::Text(base), SpanStyle::Checkbox(base), rest);
        return now_code;
    }
    let tb = back_whitespace(v, w, e);
    proof {
        lemma_back_while(v@, w as int, e as int, ws_pred());
        lemma_back_while_sub(v@, w as int, w as int, e as int, e as int, ws_pred());
        let t = v@.subrange(w as int, e as int);
        assert(t.subrange(0, tb - w) =~= v@.subrange(w as int, tb as int));
        assert(trim_end(trim_start(line)) == v@.subrange(w as int, tb as int));
    }
    let clean = string_of(v, w, tb);
    let style = if is_divider_line(clean.as_str()) {
        SpanStyle::Hidden(base)
    } else if is_table_divider_line(clean.as_str()) || (w < e && v[w] == '|') {
        SpanStyle::Table
    } else {
        SpanStyle::Text(base)
    };
    out.push(Span { start: p, end: e, style });
    assert(out@.map_values(|sp: Span| span_view(sp)) =~= before + seq![(p as int, e as int, style)]);
    now_code
}

/// The styled spans of the body text, line by line, in order.
pub fn markdown_spans(text: &str) -> (spans: Vec<Span>)
    ensures
        spans@.map_values(|sp: Span| span_view(sp)) == text_spans(text@),
{
    let v = chars_of(text);
    let ghost s = v@;
    let n = v.len();
    let mut out: Vec<Span> = Vec::new();
    if n == 0 {
        out.push(Span { start: 0, end: 0, style: SpanStyle::Text(LineBase::Normal) });
        assert(out@.map_values(|sp: Span| span_view(sp)) =~= text_spans(text@));
        return out;
    }
    let mut in_code = false;
    let mut p: usize = 0;
    while p < n
        invariant
            s == v@,
            s == text@,
            n == s.len(),
            p <= n,
            text_spans(s) == out@.map_values(|sp: Span| span_view(sp)) + spans_from(
                s,
                p as int,
                in_code,
            ),
        decreases n - p,
    {
        let k = find_newline(&v, p, n);
        let e = if k < n {
            k + 1
        } else {
            k
        };
        assert(e == line_end_from(s, p as int));
        let ghost prev_out = out@.map_values(|sp: Span| span_view(sp));
        let ghost r = line_spans(s.subrange(p as int, e as int), p as int, in_code);
        assert(spans_from(s, p as int, in_code) == r.1 + spans_from(s, e as int, r.0));
        in_code = push_line_spans(&mut out, v.as_slice(), p, e, in_code);
        assert(out@.map_values(|sp: Span| span_view(sp)) + spans_from(s, e as int, in_code) =~= prev_out + (r.1 + spans_from(s, e as int, r.0)));
        p = e;
    }
    assert(spans_from(s, n as int, in_code) =~= Seq::<(int, int, SpanStyle)>::empty());
    out
}

/// A decoration drawn over the text, at character indices.
#[derive(Clone, Copy, Debug, PartialEq, Eq)]
pub enum Mark {
    /// A bar to the left of a quote, at its `>`.
    QuoteBar(usize),
    /// A check box over the `[ ]` of a to-do marker, at its `[`; whether it is ticked.
    Checkbox(usize, bool),
    /// A horizontal rule over a divider, spanning its characters.
    Rule(usize, usize),
}

/// The decorations of `line`, which starts at `at` in the text: a quote bar at the `>` of
/// a quote, a check box at the `[` of a to-do marker, and a rule across a divider.
pub open spec fn line_marks(line: Seq<char>, at: int) -> Seq<Mark> {
    let t = trim_start(line);
    let off = skip_while(line, 0, line.len() as int, ws_pred());
    let clean = trim_end(t);
    let quote = if starts_with(t, seq!['>', ' ']) {
        seq![Mark::QuoteBar((at + off) as usize)]
    } else {
        seq![]
    };
    let check = if starts_with(t, todo_open()) || starts_with(t, todo_done()) {
        seq![Mark::Checkbox((at + off + 2) as usize, starts_with(t, todo_done()))]
    } else {
        seq![]
    };
    let rule = if divider_line(clean) {
        seq![Mark::Rule((at + off) as usize, (at + off + clean.len()) as usize)]
    } else {
        seq![]
    };
    quote + check + rule
}

/// The decorations of the lines of `s` from the line starting at `p` on.
pub open spec fn marks_from(s: Seq<char>, p: int) -> Seq<Mark>
    decreases s.len() - p,
{
    if 0 <= p < s.len() {
        let e = line_end_from(s, p);
        proof {
            lemma_skip_while(s, p, s.len() as int, not_nl_pred());
        }
        line_marks(s.subrange(p, e), p) + marks_from(s, e)
    } else {
        seq![]
    }
}

/// Appends the decorations of the line `v[p..e]`.
fn push_line_marks(out: &mut Vec<Mark>, v: &[char], p: usize, e: usize)
    requires
        p <= e <= v@.len(),
    ensures
        final(out)@ == old(out)@ + line_marks(v@.subrange(p as int, e as int), p as int),
{
    let ghost line = v@.subrange(p as int, e as int);
    let ghost before = out@;
    let w = skip_whitespace(v, p, e);
    proof {
        lemma_skip_while(v@, p as int, e as int, ws_pred());
        lemma_skip_while_sub(v@, p as int, p as int, e as int, e as int, ws_pred());
        assert(trim_start(line) == v@.subrange(w as int, e as int));
    }
    let quote = range_starts_with(v, w, e, &['>', ' ']);
    if quote {
        out.push(Mark::QuoteBar(w));
    }
    let open = range_starts_with(v, w, e, &['-', ' ', '[', ' ', ']', ' ']);
    let done = range_starts_with(v, w, e, &['-', ' ', '[', 'x', ']', ' ']);
    if open || done {
        out.push(Mark::Checkbox(w + 2, done));
    }
    let tb = back_whitespace(v, w, e);
    proof {
        lemma_back_while(v@, w as int, e as int, ws_pred());
        lemma_back_while_sub(v@, w as int, w as int, e as int, e as int, ws_pred());
        let t = v@.subrange(w as int, e as int);
        assert(t.subrange(0, tb - w) =~= v@.subrange(w as int, tb as int));
        assert(trim_end(trim_start(line)) == v@.subrange(w as int, tb as int));
    }
    let clean = string_of(v, w, tb);
    if is_divider_line(clean.as_str()) {
        out.push(Mark::Rule(w, tb));
    }
    assert(out@ =~= before + line_marks(line, p as int));
}

/// The decorations drawn over the body text, line by line, in order.
pub fn overlay_marks(text: &str) -> (marks: Vec<Mark>)
    ensures
        marks@ == marks_from(text@, 0),
{
    let v = chars_of(text);
    let ghost s = v@;
    let n = v.len();
    let mut out: Vec<Mark> = Vec::new();
    let mut p: usize = 0;
    while p < n
        invariant
            s == v@,
            s == text@,
            n == s.len(),
            p <= n,
            marks_from(s, 0) == out@ + marks_from(s, p as int),
        decreases n - p,
    {
        let k = find_newline(&v, p, n);
        let e = if k < n {
            k + 1
        } else {
            k
        };
        assert(e == line_end_from(s, p as int));
        let ghost prev_out = out@;
        assert(marks_from(s, p as int) == line_marks(s.subrange(p as int, e as int), p as int)
            + marks_from(s, e as int));
        push_line_marks(&mut out, v.as_slice(), p, e);
        assert(out@ + marks_from(s, e as int) =~= prev_out + (line_marks(
            s.subrange(p as int, e as int),
            p as int,
        ) + marks_from(s, e as int)));
        p = e;
    }
    assert(marks_from(s, n as int) =~= Seq::<Mark>::empty());
    assert(out@ + Seq::<Mark>::empty() =~= out@);
    out
}

/// `spans` lie end to end, in order, from `a` to `b`.
pub open spec fn tiles(spans: Seq<(int, int, SpanStyle)>, a: int, b: int) -> bool {
    if spans.len() == 0 {
        a == b
    } else {
        &&& spans[0].0 == a
        &&& spans.last().1 == b
        &&& forall|k: int| 0 <= k < spans.len() ==> #[trigger] spans[k].0 <= spans[k].1
        &&& forall|k: int| 0 <= k < spans.len() - 1 ==> #[trigger] spans[k].1 == spans[k + 1].0
    }
}

/// Two tilings that meet make one.
proof fn lemma_tiles_concat(x: Seq<(int, int, SpanStyle)>, y: Seq<(int, int, SpanStyle)>, a: int, m: int, b: int)
    requires
        tiles(x, a, m),
        tiles(y, m, b),
    ensures
        tiles(x + y, a, b),
{
    let z = x + y;
    if x.len() > 0 && y.len() > 0 {
        assert forall|k: int| 0 <= k < z.len() - 1 implies #[trigger] z[k].1 == z[k + 1].0 by {
            if k < x.len() - 1 {
                assert(z[k] == x[k] && z[k + 1] == x[k + 1]);
            } else if k == x.len() - 1 {
                assert(z[k] == x.last() && z[k + 1] == y[0]);
            } else {
                assert(z[k] == y[k - x.len()] && z[k + 1] == y[k + 1 - x.len()]);
            }
        }
        assert forall|k: int| 0 <= k < z.len() implies #[trigger] z[k].0 <= z[k].1 by {
            if k < x.len() {
                assert(z[k] == x[k]);
            } else {
                assert(z[k] == y[k - x.len()]);
            }
        }
    } else if x.len() == 0 {
        assert(z =~= y);
    } else {
        assert(z =~= x);
    }
}

/// The spans of one line lie end to end across it.
proof fn lemma_line_tiles(line: Seq<char>, at: int, in_code: bool)
    ensures
        tiles(line_spans(line, at, in_code).1, at, at + line.len()),
{
    let n = line.len() as int;
    let off = skip_while(line, 0, n, ws_pred());
    lemma_skip_while(line, 0, n, ws_pred());
    let t = trim_start(line);
    assert(t.len() == n - off);
}

/// The styled spans lie end to end and cover the whole text: every character is laid out
/// exactly once, in order.
pub proof fn lemma_spans_cover_text(s: Seq<char>)
    ensures
        tiles(text_spans(s), 0, s.len() as int),
{
    if s.len() > 0 {
        lemma_spans_from_tiles(s, 0, false);
    }
}

/// The spans from a line start on lie end to end up to the end of the text.
proof fn lemma_spans_from_tiles(s: Seq<char>, p: int, in_code: bool)
    requires
        0 <= p <= s.len(),
    ensures
        tiles(spans_from(s, p, in_code), p, s.len() as int),
    decreases s.len() - p,
{
    if p < s.len() {
        lemma_skip_while(s, p, s.len() as int, not_nl_pred());
        let e = line_end_from(s, p);
        let r = line_spans(s.subrange(p, e), p, in_code);
        lemma_line_tiles(s.subrange(p, e), p, in_code);
        lemma_spans_from_tiles(s, e, r.0);
        lemma_tiles_concat(r.1, spans_from(s, e, r.0), p, e, s.len() as int);
    }
}

/// A text without a line feed is a single line.
proof fn lemma_one_line(s: Seq<char>)
    requires
        forall|k: int| 0 <= k < s.len() ==> #[trigger] s[k] != '\n',
    ensures
        line_end_from(s, 0) == s.len(),
{
    assert forall|k: int| 0 <= k < s.len() implies not_nl_pred()(#[trigger] s[k]) by {}
    lemma_skip_while_stops(s, 0, s.len() as int, not_nl_pred(), s.len() as int);
}

/// `level` number signs and a space: the marker of a heading of that level.
pub open spec fn heading_marker(level: nat) -> Seq<char> {
    Seq::new(level, |_i: int| '#').push(' ')
}

/// Whitespace `w` then `x`, where `x` starts with a character that is not whitespace, has
/// the indentation `w` and trims to `x`.
proof fn lemma_indented(w: Seq<char>, x: Seq<char>)
    requires
        forall|k: int| 0 <= k < w.len() ==> is_ws(#[trigger] w[k]),
        x.len() > 0,
        !is_ws(x[0]),
    ensures
        skip_while(w + x, 0, (w + x).len() as int, ws_pred()) == w.len(),
        trim_start(w + x) == x,
{
    let line = w + x;
    assert forall|k: int| 0 <= k < w.len() implies ws_pred()(#[trigger] line[k]) by {
        assert(line[k] == w[k]);
    }
    assert(line[w.len() as int] == x[0]);
    lemma_skip_while_stops(line, 0, line.len() as int, ws_pred(), w.len() as int);
    assert(line.subrange(w.len() as int, line.len() as int) =~= x);
}

/// A line outside code whose text, after its indentation `w`, starts with one to three
/// number signs and a space is a heading of that level: the indentation (if any) and the
/// text after the marker are drawn as the heading, the marker itself is hidden.
pub proof fn lemma_heading_line(w: Seq<char>, level: nat, rest: Seq<char>, at: int)
    requires
        forall|k: int| 0 <= k < w.len() ==> is_ws(#[trigger] w[k]),
        1 <= level <= 3,
    ensures
        ({
            let line = w + heading_marker(level) + rest;
            let h = LineBase::Heading(level as usize);
            let lead = if w.len() > 0 {
                seq![(at, at + w.len(), SpanStyle::Text(h))]
            } else {
                seq![]
            };
            let m = at + w.len() + level + 1;
            line_spans(line, at, false) == (
                false,
                lead + seq![
                    (at + w.len(), m, SpanStyle::Marker(h)),
                    (m, at + line.len(), SpanStyle::Text(h)),
                ],
            )
        }),
{
    let mk = heading_marker(level);
    let x = mk + rest;
    let line = w + mk + rest;
    assert(line =~= w + x);
    assert(x[0] == '#');
    lemma_indented(w, x);
    let t = trim_start(line);
    assert(t == x);
    assert(!starts_with(line, fence())) by {
        if line.len() >= 3 {
            if w.len() > 0 {
                assert(line.take(3)[0] == w[0]);
            } else {
                assert(line[0] == x[0]);
                assert(line.take(3)[0] == '#');
            }
        }
    }
    if level == 1 {
        assert(t.take(2) =~= seq!['#', ' ']);
    } else if level == 2 {
        assert(t.take(2)[1] == '#');
        assert(t.take(3) =~= seq!['#', '#', ' ']);
    } else {
        assert(t.take(2)[1] == '#');
        assert(t.take(3)[2] == '#');
        assert(t.take(4) =~= seq!['#', '#', '#', ' ']);
    }
    assert(line_base(line, false) == LineBase::Heading(level as usize));
}

/// A text made of one heading line (see `lemma_heading_line`) is laid out as that heading.
pub proof fn lemma_heading_text(w: Seq<char>, level: nat, rest: Seq<char>)
    requires
        forall|k: int| 0 <= k < w.len() ==> is_ws(#[trigger] w[k]) && w[k] != '\n',
        1 <= level <= 3,
        forall|k: int| 0 <= k < rest.len() ==> #[trigger] rest[k] != '\n',
    ensures
        ({
            let s = w + heading_marker(level) + rest;
            let h = LineBase::Heading(level as usize);
            let lead = if w.len() > 0 {
                seq![(0, w.len() as int, SpanStyle::Text(h))]
            } else {
                seq![]
            };
            let m = (w.len() + level + 1) as int;
            text_spans(s) == lead + seq![
                (w.len() as int, m, SpanStyle::Marker(h)),
                (m, s.len() as int, SpanStyle::Text(h)),
            ]
        }),
{
    let mk = heading_marker(level);
    let s = w + mk + rest;
    assert forall|k: int| 0 <= k < s.len() implies #[trigger] s[k] != '\n' by {
        if k < w.len() {
            assert(s[k] == w[k]);
        } else if k < w.len() + mk.len() {
            assert(s[k] == mk[k - w.len()]);
        } else {
            assert(s[k] == rest[k - w.len() - mk.len()]);
        }
    }
    lemma_one_line(s);
    lemma_heading_line(w, level, rest, 0);
    assert(s.subrange(0, s.len() as int) =~= s);
    let r = line_spans(s, 0, false);
    assert(spans_from(s, s.len() as int, r.0) =~= Seq::<(int, int, SpanStyle)>::empty());
    assert(text_spans(s) =~= r.1);
}

/// After a to-do marker the line is no divider and no quote.
proof fn lemma_todo_not_divider(t: Seq<char>)
    requires
        starts_with(t, todo_open()) || starts_with(t, todo_done()),
    ensures
        !divider_line(trim_end(t)),
        !starts_with(t, seq!['>', ' ']),
{
    assert(t[0] == '-' && t[4] == ']');
    if starts_with(t, seq!['>', ' ']) {
        assert(t.take(2)[0] == t[0]);
    }
    let b = back_while(t, 0, t.len() as int, ws_pred());
    lemma_back_while(t, 0, t.len() as int, ws_pred());
    assert(b >= 5) by {
        if b < 5 {
            assert(ws_pred()(t[4]));
        }
    }
    let clean = trim_end(t);
    assert(clean.len() == b);
    assert(clean[0] == '-' && clean[4] == ']');
    lemma_indented(Seq::<char>::empty(), clean);
    assert(Seq::<char>::empty() + clean =~= clean);
    assert(trim_start(clean) == clean);
    let b2 = back_while(clean, 0, clean.len() as int, ws_pred());
    lemma_back_while(clean, 0, clean.len() as int, ws_pred());
    assert(b2 >= 5) by {
        if b2 < 5 {
            assert(ws_pred()(clean[4]));
        }
    }
    assert(trim(clean).len() >= 5);
}

/// A line whose text, after its indentation `w`, starts with a to-do marker `m` gets one
/// decoration: a check box at the marker's `[`, ticked exactly when `m` is `- [x] `.
pub proof fn lemma_checkbox_mark(w: Seq<char>, m: Seq<char>, rest: Seq<char>, at: int)
    requires
        forall|k: int| 0 <= k < w.len() ==> is_ws(#[trigger] w[k]),
        m == todo_open() || m == todo_done(),
    ensures
        line_marks(w + m + rest, at) == seq![
            Mark::Checkbox((at + w.len() + 2) as usize, m == todo_done()),
        ],
{
    let x = m + rest;
    let line = w + m + rest;
    assert(line =~= w + x);
    assert(x[0] == '-');
    lemma_indented(w, x);
    let t = trim_start(line);
    assert(t.take(6) =~= m);
    lemma_todo_not_divider(t);
    if m == todo_open() {
        assert(!starts_with(t, todo_done())) by {
            assert(t.take(6)[3] != todo_done()[3]);
        }
    }
}

/// A text made of one to-do line (see `lemma_checkbox_mark`) has that one decoration.
pub proof fn lemma_checkbox_text(w: Seq<char>, m: Seq<char>, rest: Seq<char>)
    requires
        forall|k: int| 0 <= k < w.len() ==> is_ws(#[trigger] w[k]) && w[k] != '\n',
        m == todo_open() || m == todo_done(),
        forall|k: int| 0 <= k < rest.len() ==> #[trigger] rest[k] != '\n',
    ensures
        marks_from(w + m + rest, 0) == seq![Mark::Checkbox((w.len() + 2) as usize, m == todo_done())],
{
    let s = w + m + rest;
    assert forall|k: int| 0 <= k < s.len() implies #[trigger] s[k] != '\n' by {
        if k < w.len() {
            assert(s[k] == w[k]);
        } else if k < w.len() + m.len() {
            assert(s[k] == m[k - w.len()]);
        } else {
            assert(s[k] == rest[k - w.len() - m.len()]);
        }
    }
    lemma_one_line(s);
    lemma_checkbox_mark(w, m, rest, 0);
    assert(s.subrange(0, s.len() as int) =~= s);
    assert(marks_from(s, s.len() as int) =~= Seq::<Mark>::empty());
    assert(marks_from(s, 0) =~= line_marks(s, 0));
}

/// A line that starts with a character that is not whitespace and no rule character is
/// no divider.
proof fn lemma_plain_start_not_divider(t: Seq<char>)
    requires
        t.len() > 0,
        !is_ws(t[0]),
        t[0] != '-' && t[0] != '*' && t[0] != '_',
    ensures
        !divider_line(trim_end(t)),
{
    let b = back_while(t, 0, t.len() as int, ws_pred());
    lemma_back_while(t, 0, t.len() as int, ws_pred());
    assert(b >= 1) by {
        if b < 1 {
            assert(ws_pred()(t[0]));
        }
    }
    let clean = trim_end(t);
    assert(clean[0] == t[0]);
    lemma_indented(Seq::<char>::empty(), clean);
    assert(Seq::<char>::empty() + clean =~= clean);
    let b2 = back_while(clean, 0, clean.len() as int, ws_pred());
    lemma_back_while(clean, 0, clean.len() as int, ws_pred());
    assert(b2 >= 1) by {
        if b2 < 1 {
            assert(ws_pred()(clean[0]));
        }
    }
    assert(trim(clean)[0] == t[0]);
}

/// A to-do line outside code, with indentation `w` and marker `m`: the marker is drawn as a
/// check box and the text after it struck through exactly when `m` is `- [x] `.
pub proof fn lemma_todo_line(w: Seq<char>, m: Seq<char>, rest: Seq<char>, at: int)
    requires
        forall|k: int| 0 <= k < w.len() ==> is_ws(#[trigger] w[k]),
        m == todo_open() || m == todo_done(),
    ensures
        ({
            let line = w + m + rest;
            let b = LineBase::Normal;
            let lead = if w.len() > 0 {
                seq![(at, at + w.len(), SpanStyle::Text(b))]
            } else {
                seq![]
            };
            let after = if m == todo_done() {
                SpanStyle::Done(b)
            } else {
                SpanStyle::Text(b)
            };
            line_spans(line, at, false) == (
                false,
                lead + seq![
                    (at + w.len(), at + w.len() + 6, SpanStyle::Checkbox(b)),
                    (at + w.len() + 6, at + line.len(), after),
                ],
            )
        }),
{
    let x = m + rest;
    let line = w + m + rest;
    assert(line =~= w + x);
    assert(x[0] == '-');
    lemma_indented(w, x);
    let t = trim_start(line);
    assert(t.take(6) =~= m);
    assert(!starts_with(line, fence())) by {
        if line.len() >= 3 {
            if w.len() > 0 {
                assert(line.take(3)[0] == w[0]);
            } else {
                assert(line[0] == x[0]);
                assert(line.take(3)[0] == '-');
            }
        }
    }
    assert(!starts_with(t, seq!['#', ' '])) by {
        if t.len() >= 2 {
            assert(t.take(2)[0] == t[0]);
        }
    }
    assert(!starts_with(t, seq!['#', '#', ' '])) by {
        if t.len() >= 3 {
            assert(t.take(3)[0] == t[0]);
        }
    }
    assert(!starts_with(t, seq!['#', '#', '#', ' '])) by {
        if t.len() >= 4 {
            assert(t.take(4)[0] == t[0]);
        }
    }
    assert(!starts_with(t, seq!['>', ' '])) by {
        if t.len() >= 2 {
            assert(t.take(2)[0] == t[0]);
        }
    }
    assert(line_base(line, false) == LineBase::Normal);
    if m == todo_open() {
        assert(!starts_with(t, todo_done())) by {
            assert(t.take(6)[3] != todo_done()[3]);
        }
    }
}

/// The marker of a quote: `> `.
pub open spec fn quote_marker() -> Seq<char> {
    seq!['>', ' ']
}

/// A quote line outside code, with indentation `w`: its `> ` is hidden behind a bar drawn
/// at the `>`, and the line is drawn as a quote.
pub proof fn lemma_quote_line(w: Seq<char>, rest: Seq<char>, at: int)
    requires
        forall|k: int| 0 <= k < w.len() ==> is_ws(#[trigger] w[k]),
    ensures
        ({
            let line = w + quote_marker() + rest;
            let q = LineBase::Quote;
            let lead = if w.len() > 0 {
                seq![(at, at + w.len(), SpanStyle::Text(q))]
            } else {
                seq![]
            };
            &&& line_spans(line, at, false) == (
                false,
                lead + seq![
                    (at + w.len(), at + w.len() + 2, SpanStyle::Marker(q)),
                    (at + w.len() + 2, at + line.len(), SpanStyle::Text(q)),
                ],
            )
            &&& line_marks(line, at) == seq![Mark::QuoteBar((at + w.len()) as usize)]
        }),
{
    let x = quote_marker() + rest;
    let line = w + quote_marker() + rest;
    assert(line =~= w + x);
    assert(x[0] == '>');
    lemma_indented(w, x);
    let t = trim_start(line);
    assert(t.take(2) =~= quote_marker());
    assert(!starts_with(line, fence())) by {
        if line.len() >= 3 {
            if w.len() > 0 {
                assert(line.take(3)[0] == w[0]);
            } else {
                assert(line[0] == x[0]);
                assert(line.take(3)[0] == '>');
            }
        }
    }
    assert(!starts_with(t, seq!['#', ' '])) by {
        if t.len() >= 2 {
            assert(t.take(2)[0] == t[0]);
        }
    }
    assert(!starts_with(t, seq!['#', '#', ' '])) by {
        if t.len() >= 3 {
            assert(t.take(3)[0] == t[0]);
        }
    }
    assert(!starts_with(t, seq!['#', '#', '#', ' '])) by {
        if t.len() >= 4 {
            assert(t.take(4)[0] == t[0]);
        }
    }
    assert(!starts_with(t, todo_open())) by {
        if t.len() >= 6 {
            assert(t.take(6)[0] == t[0]);
        }
    }
    assert(!starts_with(t, todo_done())) by {
        if t.len() >= 6 {
            assert(t.take(6)[0] == t[0]);
        }
    }
    lemma_plain_start_not_divider(t);
    assert(line_base(line, false) == LineBase::Quote);
}

/// Trimming keeps a part of the text, so a character that `x` lacks its trimmed forms lack.
proof fn lemma_trim_lacks(x: Seq<char>, c: char)
    requires
        forall|k: int| 0 <= k < x.len() ==> #[trigger] x[k] != c,
    ensures
        forall|k: int| 0 <= k < trim(trim_end(x)).len() ==> #[trigger] trim(trim_end(x))[k] != c,
{
    let n = x.len() as int;
    lemma_back_while(x, 0, n, ws_pred());
    let y = trim_end(x);
    assert forall|k: int| 0 <= k < y.len() implies #[trigger] y[k] != c by {
        assert(y[k] == x[k]);
    }
    lemma_skip_while(y, 0, y.len() as int, ws_pred());
    let z = trim_start(y);
    assert forall|k: int| 0 <= k < z.len() implies #[trigger] z[k] != c by {
        assert(z[k] == y[k + skip_while(y, 0, y.len() as int, ws_pred())]);
    }
    lemma_back_while(z, 0, z.len() as int, ws_pred());
    let r = trim_end(z);
    assert forall|k: int| 0 <= k < r.len() implies #[trigger] r[k] != c by {
        assert(r[k] == z[k]);
    }
}

/// A code fence line (three backticks and anything without a `|`) opens a code block where
/// none was open and closes the one that was, and is drawn whole as code.
pub proof fn lemma_fence_line(rest: Seq<char>, at: int, in_code: bool)
    requires
        forall|k: int| 0 <= k < rest.len() ==> #[trigger] rest[k] != '|',
    ensures
        line_spans(fence() + rest, at, in_code) == (
            !in_code,
            seq![(at, at + 3 + rest.len(), SpanStyle::Text(LineBase::Code))],
        ),
{
    let line = fence() + rest;
    assert(line.take(3) =~= fence());
    let e = Seq::<char>::empty();
    assert(e + line =~= line);
    lemma_indented(e, line);
    let t = trim_start(line);
    assert(t == line);
    assert(!starts_with(t, todo_open())) by {
        if t.len() >= 6 {
            assert(t.take(6)[0] == t[0]);
        }
    }
    assert(!starts_with(t, todo_done())) by {
        if t.len() >= 6 {
            assert(t.take(6)[0] == t[0]);
        }
    }
    lemma_plain_start_not_divider(t);
    assert forall|k: int| 0 <= k < line.len() implies #[trigger] line[k] != '|' by {
        if k >= 3 {
            assert(line[k] == rest[k - 3]);
        }
    }
    lemma_trim_lacks(t, '|');
    assert(!table_divider_line(trim_end(t)));
}

/// A divider line outside code (`---`, `***` or `___` with only whitespace around it) is
/// hidden, and a rule is drawn where its three characters stand.
pub proof fn lemma_divider_line(w: Seq<char>, d: Seq<char>, tail: Seq<char>, at: int)
    requires
        forall|k: int| 0 <= k < w.len() ==> is_ws(#[trigger] w[k]),
        d == seq!['-', '-', '-'] || d == seq!['*', '*', '*'] || d == seq!['_', '_', '_'],
        forall|k: int| 0 <= k < tail.len() ==> is_ws(#[trigger] tail[k]),
    ensures
        ({
            let line = w + d + tail;
            &&& line_spans(line, at, false) == (
                false,
                seq![(at, at + line.len(), SpanStyle::Hidden(LineBase::Normal))],
            )
            &&& line_marks(line, at) == seq![
                Mark::Rule((at + w.len()) as usize, (at + w.len() + 3) as usize),
            ]
        }),
{
    let x = d + tail;
    let line = w + d + tail;
    assert(line =~= w + x);
    lemma_indented(w, x);
    let t = trim_start(line);
    assert(t == x);
    assert(!starts_with(line, fence())) by {
        if w.len() > 0 {
            assert(line.take(3)[0] == w[0]);
        } else {
            assert(line.take(3)[0] == d[0]);
        }
    }
    assert(!starts_with(t, seq!['#', ' '])) by { assert(t.take(2)[0] == t[0]); }
    assert(!starts_with(t, seq!['#', '#', ' '])) by { assert(t.take(3)[0] == t[0]); }
    assert(!starts_with(t, seq!['#', '#', '#', ' '])) by {
        if t.len() >= 4 {
            assert(t.take(4)[0] == t[0]);
        }
    }
    assert(!starts_with(t, seq!['>', ' '])) by { assert(t.take(2)[0] == t[0]); }
    assert(!starts_with(t, todo_open())) by {
        if t.len() >= 6 {
            assert(t.take(6)[1] == t[1]);
        }
    }
    assert(!starts_with(t, todo_done())) by {
        if t.len() >= 6 {
            assert(t.take(6)[1] == t[1]);
        }
    }
    assert(line_base(line, false) == LineBase::Normal);
    assert forall|k: int| 3 <= k < t.len() implies ws_pred()(#[trigger] t[k]) by {
        assert(t[k] == tail[k - 3]);
    }
    lemma_back_while_stops(t, 0, t.len() as int, ws_pred(), 3);
    let clean = trim_end(t);
    assert(clean =~= d);
    assert(d =~= Seq::<char>::empty() + d);
    lemma_indented(Seq::<char>::empty(), d);
    assert(trim_start(d) == d);
    lemma_back_while_stops(d, 0, 3, ws_pred(), 3);
    assert(trim_end(d) =~= d);
    assert(trim(clean) == d);
    assert(divider_line(clean));
}

} // verus!

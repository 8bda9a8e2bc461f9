//! Notes: their titles, word counts, and the legacy plain-text store.
use vstd::prelude::*;
use crate::clock::unix_time;
use crate::editing::{find_newline, is_line_start, not_nl_pred};
use crate::markdown::{is_visual_only_markdown_line, visual_only_line};
use crate::text::{
    chars_of, is_whitespace, is_ws, lemma_skip_while, skip_while, string_of, trim,
    trim_bounds,
};

verus! {

/// One note.
#[derive(Clone, Debug, PartialEq, Eq)]
pub struct Note {
    /// Identifier, the creation time in seconds.
    pub id: u64,
    /// Title as typed.
    pub title: String,
    /// Markdown body.
    pub content: String,
    /// Creation time, seconds since the Unix epoch.
    pub created: u64,
    /// Last edit time, seconds since the Unix epoch.
    pub updated: u64,
}

/// A note just made at some time: the given title, an empty body, and one timestamp used
/// as its id, creation and update time.
pub open spec fn fresh_note(n: Note, title: Seq<char>) -> bool {
    &&& n.title@ == title
    &&& n.content@ == Seq::<char>::empty()
    &&& n.id == n.created
    &&& n.created == n.updated
}

/// The name shown for untitled notes.
pub open spec fn untitled() -> Seq<char> {
    seq!['U', 'n', 't', 'i', 't', 'l', 'e', 'd']
}

/// The first `n` characters of `t` (all of them when `t` is shorter).
pub open spec fn first_chars(t: Seq<char>, n: int) -> Seq<char> {
    t.take(vstd::math::min(n, t.len() as int))
}

/// The line of `s` starting at `p` (`str::lines`): up to its line feed, without a `\r`
/// that directly precedes that line feed.
pub open spec fn line_at(s: Seq<char>, p: int) -> Seq<char> {
    let k = skip_while(s, p, s.len() as int, not_nl_pred());
    let l = s.subrange(p, k);
    if k < s.len() && l.len() > 0 && l.last() == '\r' {
        l.drop_last()
    } else {
        l
    }
}

/// The line at `p`, trimmed, could stand as a title: it has text and is not only drawn.
pub open spec fn title_line(s: Seq<char>, p: int) -> bool {
    is_line_start(s, p) && trim(line_at(s, p)).len() > 0 && !visual_only_line(trim(line_at(s, p)))
}

/// The title shown for a note with the given title and body: the trimmed title when it is
/// not blank; otherwise the first 48 characters of the first body line that can stand as a
/// title, trimmed; otherwise `Untitled`.
pub open spec fn shown_title(r: Seq<char>, title: Seq<char>, content: Seq<char>) -> bool {
    if trim(title).len() > 0 {
        r == trim(title)
    } else if exists|p: int| title_line(content, p) {
        exists|p: int|
            #![trigger title_line(content, p)]
            title_line(content, p) && (forall|p2: int| p2 < p ==> !title_line(content, p2)) && r
                == first_chars(trim(line_at(content, p)), 48)
    } else {
        r == untitled()
    }
}

impl Note {
    /// A new note with the given title and an empty body, stamped with the current time.
    pub fn new(title: &str) -> (n: Note)
        ensures
            fresh_note(n, title@),
    {
        let now = unix_time();
        Note {
            id: now,
            title: String::from_str(title),
            content: String::new(),
            created: now,
            updated: now,
        }
    }

    /// The title to show for this note.
    pub fn display_title(&self) -> (r: String)
        ensures
            shown_title(r@, self.title@, self.content@),
    {
        let t = chars_of(self.title.as_str());
        let (a, b) = trim_bounds(&t, 0, t.len());
        assert(t@.subrange(0, t@.len() as int) == t@);
        if a < b {
            return string_of(&t, a, b);
        }
        let v = chars_of(self.content.as_str());
        let ghost s = v@;
        let n = v.len();
        let mut p: usize = 0;
        while p < n
            invariant
                s == v@,
                s == self.content@,
                trim(self.title@).len() == 0,
                n == s.len(),
                p <= n,
                p == 0 || p == n || s[p - 1] == '\n',
                forall|p2: int| p2 < p ==> !title_line(s, p2),
            decreases n - p,
        {
            let k = find_newline(&v, p, n);
            let lend = if k < n && k > p && v[k - 1] == '\r' {
                k - 1
            } else {
                k
            };
            assert(line_at(s, p as int) == s.subrange(p as int, lend as int));
            let (a, b) = trim_bounds(&v, p, lend);
            if a < b {
                let line = string_of(&v, a, b);
                if !is_visual_only_markdown_line(line.as_str()) {
                    let end = if b - a > 48 {
                        a + 48
                    } else {
                        b
                    };
                    let r = string_of(&v, a, end);
                    assert(title_line(s, p as int));
                    assert(r@ == first_chars(trim(line_at(s, p as int)), 48));
                    return r;
                }
            }
            proof {
                assert forall|p2: int| p2 < k + 1 implies !title_line(s, p2) by {
                    if p < p2 && p2 <= k && title_line(s, p2) {
                        assert(s[p2 - 1] == '\n');
                        assert(not_nl_pred()(s[p2 - 1]));
                    }
                }
            }
            p = if k < n {
                k + 1
            } else {
                k
            };
        }
        let r = String::from_str("Untitled");
        proof {
            reveal_strlit("Untitled");
            assert("Untitled"@ =~= untitled());
            assert forall|p2: int| !title_line(s, p2) by {
                if p2 >= n {
                }
            }
        }
        r
    }
}

/// The note shown when there are no notes yet.
pub fn welcome_note() -> (n: Note)
    ensures
        n.title@ == "Grass"@,
        n.content@ == ",,,,,,,,,,,,,,,,,,,,,,,,,,,,,,,,,, <- touch"@,
        n.id == n.created && n.created == n.updated,
{
    let mut note = Note::new("Grass");
    note.content = String::from_str(",,,,,,,,,,,,,,,,,,,,,,,,,,,,,,,,,, <- touch");
    note
}

/// `s[i]` starts a word: it is not whitespace and the character before it, if any, is.
pub open spec fn word_start(s: Seq<char>, i: int) -> bool {
    0 <= i < s.len() && !is_ws(s[i]) && (i == 0 || is_ws(s[i - 1]))
}

/// The number of words that start in `s[..k]`.
pub open spec fn words_before(s: Seq<char>, k: int) -> nat
    decreases k,
{
    if k <= 0 {
        0
    } else {
        words_before(s, k - 1) + if word_start(s, k - 1) {
            1nat
        } else {
            0nat
        }
    }
}

/// The number of whitespace-separated words in `s` (`str::split_whitespace().count()`).
pub open spec fn word_count(s: Seq<char>) -> nat {
    words_before(s, s.len() as int)
}

/// The number of words in the body of `note`.
pub fn note_word_count(note: &Note) -> (n: usize)
    ensures
        n == word_count(note.content@),
{
    let v = chars_of(note.content.as_str());
    let mut count: usize = 0;
    let mut i: usize = 0;
    while i < v.len()
        invariant
            v@ == note.content@,
            i <= v@.len(),
            count == words_before(v@, i as int),
            count <= i,
        decreases v@.len() - i,
    {
        if !is_whitespace(v[i]) && (i == 0 || is_whitespace(v[i - 1])) {
            count += 1;
        }
        i += 1;
    }
    count
}

/// Any character but the record separator `\x1E`, as a predicate value.
pub open spec fn not_rs_pred() -> spec_fn(char) -> bool {
    |c: char| c != '\x1E'
}

/// The ranges of the blocks of `s` that separate records, from the block starting at
/// `from` on (`str::split('\x1E')`), keeping only blocks that are not blank.
pub open spec fn legacy_ranges(s: Seq<char>, from: int) -> Seq<(int, int)>
    decreases s.len() - from,
{
    if 0 <= from <= s.len() {
        let j = skip_while(s, from, s.len() as int, not_rs_pred());
        let here = if trim(s.subrange(from, j)).len() > 0 {
            seq![(from, j)]
        } else {
            seq![]
        };
        if j < s.len() {
            proof {
                lemma_skip_while(s, from, s.len() as int, not_rs_pred());
            }
            here + legacy_ranges(s, j + 1)
        } else {
            here
        }
    } else {
        seq![]
    }
}

/// `n` is the note read from the legacy block `b`: the title is the block up to its first
/// line feed, the body is what follows that line feed (empty when there is none).
pub open spec fn note_from_block(n: Note, b: Seq<char>) -> bool {
    let t = skip_while(b, 0, b.len() as int, not_nl_pred());
    &&& n.title@ == b.take(t)
    &&& n.content@ == (if t < b.len() {
        b.skip(t + 1)
    } else {
        Seq::<char>::empty()
    })
    &&& n.id == n.created
    &&& n.created == n.updated
}

/// Reads notes from the legacy text store: records separated by `\x1E`, each a title
/// line followed by the body; blank records are skipped.
pub fn parse_legacy_notes(data: &str) -> (notes: Vec<Note>)
    ensures
        notes@.len() == legacy_ranges(data@, 0).len(),
        forall|k: int|
            0 <= k < notes@.len() ==> note_from_block(
                #[trigger] notes@[k],
                data@.subrange(legacy_ranges(data@, 0)[k].0, legacy_ranges(data@, 0)[k].1),
            ),
{
    let v = chars_of(data);
    let ghost s = v@;
    let n = v.len();
    let mut notes: Vec<Note> = Vec::new();
    let ghost mut done: Seq<(int, int)> = seq![];
    let mut p: usize = 0;
    loop
        invariant_except_break
            legacy_ranges(s, 0) == done + legacy_ranges(s, p as int),
        invariant
            s == v@,
            s == data@,
            n == s.len(),
            p <= n,
            notes@.len() == done.len(),
            forall|k: int|
                0 <= k < notes@.len() ==> note_from_block(
                    #[trigger] notes@[k],
                    s.subrange(done[k].0, done[k].1),
                ),
        ensures
            legacy_ranges(s, 0) == done,
        decreases n - p,
    {
        let mut j = p;
        while j < n && v[j] != '\x1E'
            invariant
                p <= j <= n == v@.len(),
                skip_while(v@, j as int, n as int, not_rs_pred()) == skip_while(
                    v@,
                    p as int,
                    n as int,
                    not_rs_pred(),
                ),
            decreases n - j,
        {
            j += 1;
        }
        proof {
            lemma_skip_while(s, p as int, n as int, not_rs_pred());
        }
        let (a, b) = trim_bounds(&v, p, j);
        let ghost old_done = done;
        if a < b {
            let t = find_newline(&v, p, j);
            proof {
                crate::text::lemma_skip_while_sub(s, p as int, p as int, j as int, j as int, not_nl_pred());
            }
            let title = string_of(&v, p, t);
            let mut note = Note::new(title.as_str());
            note.content = if t < j {
                string_of(&v, t + 1, j)
            } else {
                String::new()
            };
            proof {
                let blk = s.subrange(p as int, j as int);
                assert(blk.take(t - p) == s.subrange(p as int, t as int));
                if t < j {
                    assert(blk.skip(t - p + 1) == s.subrange(t + 1, j as int));
                }
                assert(note_from_block(note, blk));
                done = done.push((p as int, j as int));
            }
            notes.push(note);
        }
        proof {
            assert(legacy_ranges(s, p as int) == (if a < b {
                seq![(p as int, j as int)]
            } else {
                seq![]
            }) + (if j < n {
                legacy_ranges(s, j + 1)
            } else {
                seq![]
            }));
            assert forall|k: int| 0 <= k < notes@.len() implies note_from_block(
                #[trigger] notes@[k],
                s.subrange(done[k].0, done[k].1),
            ) by {
                if k < old_done.len() {
                    assert(done[k] == old_done[k]);
                }
            }
        }
        if j == n {
            proof {
                assert(done + seq![] =~= done);
            }
            break;
        }
        proof {
            assert(done + legacy_ranges(s, j + 1) =~= old_done + ((if a < b {
                seq![(p as int, j as int)]
            } else {
                seq![]
            }) + legacy_ranges(s, j + 1)));
        }
        p = j + 1;
    }
    notes
}

/// Where the legacy text store lives: `.note_data.txt` in the directory `home`, joined as
/// `Path::join` does on Unix for a relative name (a `/` is added unless `home` is empty or
/// already ends with one).
pub fn legacy_data_path(home: &str) -> (path: String)
    ensures
        path@ == (if home@.len() == 0 || home@.last() == '/' {
            home@
        } else {
            home@.push('/')
        }) + ".note_data.txt"@,
{
    let v = chars_of(home);
    let mut path = string_of(&v, 0, v.len());
    assert(v@.subrange(0, v@.len() as int) == v@);
    if v.len() > 0 && v[v.len() - 1] != '/' {
        crate::text::push_char(&mut path, '/');
    }
    path.append(".note_data.txt");
    path
}

/// A note without a title is shown by its first line when that line can stand as a title:
/// for a body made of a line `l` (no line feed, not ending in `\r`) and then nothing or a
/// line feed and anything, the shown title is the first 48 characters of `l` trimmed.
pub proof fn lemma_title_from_first_line(r: Seq<char>, title: Seq<char>, l: Seq<char>, tail: Seq<char>)
    requires
        trim(title).len() == 0,
        forall|k: int| 0 <= k < l.len() ==> #[trigger] l[k] != '\n',
        l.len() > 0 && l.last() != '\r',
        tail.len() == 0 || tail[0] == '\n',
        trim(l).len() > 0,
        !visual_only_line(trim(l)),
        shown_title(r, title, l + tail),
    ensures
        r == first_chars(trim(l), 48),
{
    let s = l + tail;
    let n = l.len() as int;
    assert forall|k: int| 0 <= k < n implies not_nl_pred()(#[trigger] s[k]) by {
        assert(s[k] == l[k]);
    }
    crate::text::lemma_skip_while_stops(s, 0, s.len() as int, not_nl_pred(), n);
    assert(s.subrange(0, n) =~= l);
    assert(line_at(s, 0) == l);
    assert(title_line(s, 0));
    let p = choose|p: int|
        #![trigger title_line(s, p)]
        title_line(s, p) && (forall|p2: int| p2 < p ==> !title_line(s, p2)) && r == first_chars(
            trim(line_at(s, p)),
            48,
        );
    assert(p == 0) by {
        if p > 0 {
            assert(title_line(s, 0));
        }
    }
}

} // verus!

//! The editor's state and the decisions it takes: selecting, creating and deleting
//! notes, searching, saving, and the `/` command menu. Reading and writing the store
//! and drawing happen outside; they hand their outcomes to these functions.
use vstd::prelude::*;
use crate::editing::{
    decimal, digit_char, lemma_numbered_marker, list_prefix, numbered, slash_opens, slash_trigger,
    todo_open,
};
use crate::layout::{heading_marker, lemma_heading_line, line_spans, quote_marker, LineBase, SpanStyle};
use crate::clock::{elapsed_millis, instant_now, unix_time};
use crate::note::{Note, welcome_note};
use crate::text::{contains_chars, contains_seq, lower, lower_chars, replace_char_range, replaced, trim};

verus! {

/// How long after the last edit unsaved notes are written, in milliseconds.
pub const AUTOSAVE_AFTER_MS: u128 = 700;

/// How many `/` commands there are.
pub const SLASH_COMMAND_COUNT: usize = 16;

/// Colour scheme.
#[derive(Clone, Copy, Debug, PartialEq, Eq)]
pub enum Theme {
    /// White on black.
    Black,
    /// Black on white.
    White,
}

/// The state of the `/` command menu.
pub struct SlashMenu {
    /// Whether the menu is shown.
    pub visible: bool,
    /// What was typed after the `/`.
    pub query: String,
    /// The highlighted row among the matching commands.
    pub selected: usize,
    /// Character index of the `/`.
    pub start: usize,
    /// Character index of the cursor that typed the query.
    pub end: usize,
    /// Whether the highlighted row changed since the menu was last drawn.
    pub selection_changed: bool,
}

/// The menu is closed and reset.
pub open spec fn is_closed_menu(m: SlashMenu) -> bool {
    &&& !m.visible
    &&& m.query@ == Seq::<char>::empty()
    &&& m.selected == 0
    &&& m.start == 0
    &&& m.end == 0
    &&& !m.selection_changed
}

impl SlashMenu {
    /// A closed, reset menu.
    pub fn closed() -> (m: SlashMenu)
        ensures
            is_closed_menu(m),
    {
        SlashMenu {
            visible: false,
            query: String::new(),
            selected: 0,
            start: 0,
            end: 0,
            selection_changed: false,
        }
    }
}

impl Default for SlashMenu {
    fn default() -> (m: SlashMenu)
        ensures
            is_closed_menu(m),
    {
        SlashMenu::closed()
    }
}

/// A `/` command: what the menu shows, the words it is found by, and what it inserts.
#[derive(Clone, Copy)]
pub struct SlashCommand {
    /// Name shown in the menu.
    pub label: &'static str,
    /// Description shown under the name.
    pub detail: &'static str,
    /// Other words the command is found by.
    pub search: &'static str,
    /// Text that replaces the typed `/query`.
    pub insert: &'static str,
    /// Where the cursor goes, counted in characters from the start of the inserted text.
    pub cursor: usize,
}

/// The label of command `i`.
pub open spec fn cmd_label(i: int) -> Seq<char> {
    if i == 0 { "Text"@ }
    else if i == 1 { "Heading 1"@ }
    else if i == 2 { "Heading 2"@ }
    else if i == 3 { "Heading 3"@ }
    else if i == 4 { "To-do list"@ }
    else if i == 5 { "Bulleted list"@ }
    else if i == 6 { "Numbered list"@ }
    else if i == 7 { "Quote"@ }
    else if i == 8 { "Divider"@ }
    else if i == 9 { "Code"@ }
    else if i == 10 { "Callout"@ }
    else if i == 11 { "Link"@ }
    else if i == 12 { "Table"@ }
    else if i == 13 { "Bold"@ }
    else if i == 14 { "Italic"@ }
    else { "Strikethrough"@ }
}

/// The description of command `i`.
pub open spec fn cmd_detail(i: int) -> Seq<char> {
    if i == 0 { "Plain block."@ }
    else if i == 1 { "Big title."@ }
    else if i == 2 { "Section title."@ }
    else if i == 3 { "Small title."@ }
    else if i == 4 { "Checkbox list."@ }
    else if i == 5 { "Dot list."@ }
    else if i == 6 { "1. 2. 3."@ }
    else if i == 7 { "Quote block."@ }
    else if i == 8 { "Line break."@ }
    else if i == 9 { "Code block."@ }
    else if i == 10 { "Note callout."@ }
    else if i == 11 { "URL."@ }
    else if i == 12 { "Grid."@ }
    else if i == 13 { "Strong text."@ }
    else if i == 14 { "Emphasis."@ }
    else { "Cross out."@ }
}

/// The search words of command `i`.
pub open spec fn cmd_search(i: int) -> Seq<char> {
    if i == 0 { "plain paragraph p"@ }
    else if i == 1 { "h1 header title"@ }
    else if i == 2 { "h2 header subtitle"@ }
    else if i == 3 { "h3 header"@ }
    else if i == 4 { "todo task check checkbox"@ }
    else if i == 5 { "bullet unordered ul list"@ }
    else if i == 6 { "number numbered ordered ol list 1."@ }
    else if i == 7 { "quote blockquote cite"@ }
    else if i == 8 { "divider rule hr line"@ }
    else if i == 9 { "code snippet pre"@ }
    else if i == 10 { "callout note warn info"@ }
    else if i == 11 { "link url href"@ }
    else if i == 12 { "table grid columns rows"@ }
    else if i == 13 { "bold strong b"@ }
    else if i == 14 { "italic emphasis em i"@ }
    else { "strike strikethrough delete s"@ }
}

/// The text command `i` inserts.
pub open spec fn cmd_insert(i: int) -> Seq<char> {
    if i == 0 { ""@ }
    else if i == 1 { "# "@ }
    else if i == 2 { "## "@ }
    else if i == 3 { "### "@ }
    else if i == 4 { "- [ ] "@ }
    else if i == 5 { "- "@ }
    else if i == 6 { "1. "@ }
    else if i == 7 { "> "@ }
    else if i == 8 { "---\n"@ }
    else if i == 9 { "```\n\n```"@ }
    else if i == 10 { "> Note: "@ }
    else if i == 11 { "[text](url)"@ }
    else if i == 12 { "|   |   |\n|---|---|\n|   |   |"@ }
    else if i == 13 { "****"@ }
    else if i == 14 { "**"@ }
    else { "~~~~"@ }
}

/// Where the cursor goes after command `i`, from the start of its inserted text.
pub open spec fn cmd_cursor(i: int) -> usize {
    if i == 0 { 0 }
    else if i == 1 { 2 }
    else if i == 2 { 3 }
    else if i == 3 { 4 }
    else if i == 4 { 6 }
    else if i == 5 { 2 }
    else if i == 6 { 3 }
    else if i == 7 { 2 }
    else if i == 8 { 4 }
    else if i == 9 { 4 }
    else if i == 10 { 8 }
    else if i == 11 { 1 }
    else if i == 12 { 2 }
    else if i == 13 { 2 }
    else if i == 14 { 1 }
    else { 2 }
}

/// `c` is command `i`.
pub open spec fn is_command(c: SlashCommand, i: int) -> bool {
    &&& c.label@ == cmd_label(i)
    &&& c.detail@ == cmd_detail(i)
    &&& c.search@ == cmd_search(i)
    &&& c.insert@ == cmd_insert(i)
    &&& c.cursor == cmd_cursor(i)
}

/// Command `index`, or `None` past the last one.
pub fn slash_command(index: usize) -> (c: Option<SlashCommand>)
    ensures
        index < SLASH_COMMAND_COUNT <==> c is Some,
        c matches Some(cmd) ==> is_command(cmd, index as int),
{
    let (label, detail, search, insert, cursor): (&'static str, &'static str, &'static str, &'static str, usize) =
        if index == 0 {
        ("Text", "Plain block.", "plain paragraph p", "", 0)
    } else if index == 1 {
        ("Heading 1", "Big title.", "h1 header title", "# ", 2)
    } else if index == 2 {
        ("Heading 2", "Section title.", "h2 header subtitle", "## ", 3)
    } else if index == 3 {
        ("Heading 3", "Small title.", "h3 header", "### ", 4)
    } else if index == 4 {
        ("To-do list", "Checkbox list.", "todo task check checkbox", "- [ ] ", 6)
    } else if index == 5 {
        ("Bulleted list", "Dot list.", "bullet unordered ul list", "- ", 2)
    } else if index == 6 {
        ("Numbered list", "1. 2. 3.", "number numbered ordered ol list 1.", "1. ", 3)
    } else if index == 7 {
        ("Quote", "Quote block.", "quote blockquote cite", "> ", 2)
    } else if index == 8 {
        ("Divider", "Line break.", "divider rule hr line", "---\n", 4)
    } else if index == 9 {
        ("Code", "Code block.", "code snippet pre", "```\n\n```", 4)
    } else if index == 10 {
        ("Callout", "Note callout.", "callout note warn info", "> Note: ", 8)
    } else if index == 11 {
        ("Link", "URL.", "link url href", "[text](url)", 1)
    } else if index == 12 {
        ("Table", "Grid.", "table grid columns rows", "|   |   |\n|---|---|\n|   |   |", 2)
    } else if index == 13 {
        ("Bold", "Strong text.", "bold strong b", "****", 2)
    } else if index == 14 {
        ("Italic", "Emphasis.", "italic emphasis em i", "**", 1)
    } else if index == 15 {
        ("Strikethrough", "Cross out.", "strike strikethrough delete s", "~~~~", 2)
    } else {
        return None;
    };
    Some(SlashCommand { label, detail, search, insert, cursor })
}

/// All `/` commands, in menu order.
pub fn slash_commands() -> (cmds: Vec<SlashCommand>)
    ensures
        cmds@.len() == SLASH_COMMAND_COUNT,
        forall|i: int| 0 <= i < cmds@.len() ==> is_command(#[trigger] cmds@[i], i),
{
    let mut cmds: Vec<SlashCommand> = Vec::new();
    let mut i: usize = 0;
    while i < SLASH_COMMAND_COUNT
        invariant
            i <= SLASH_COMMAND_COUNT,
            cmds@.len() == i,
            forall|j: int| 0 <= j < i ==> is_command(#[trigger] cmds@[j], j),
        decreases SLASH_COMMAND_COUNT - i,
    {
        match slash_command(i) {
            Some(c) => cmds.push(c),
            None => {},
        }
        i += 1;
    }
    cmds
}

/// The indices below `n` that satisfy `p`, in increasing order.
pub open spec fn indices_where(n: int, p: spec_fn(int) -> bool) -> Seq<usize>
    decreases n,
{
    if n <= 0 {
        seq![]
    } else if p(n - 1) {
        indices_where(n - 1, p).push((n - 1) as usize)
    } else {
        indices_where(n - 1, p)
    }
}

/// Command `i` is found by the (lower-cased) query `q`: `q` is empty or occurs in its
/// label, description or search words, ignoring ASCII case.
pub open spec fn command_matches(i: int, q: Seq<char>) -> bool {
    ||| q.len() == 0
    ||| contains_seq(lower(cmd_label(i)), q)
    ||| contains_seq(lower(cmd_detail(i)), q)
    ||| contains_seq(lower(cmd_search(i)), q)
}

/// The commands the menu lists for the typed query.
pub open spec fn command_matches_for(query: Seq<char>) -> Seq<usize> {
    indices_where(SLASH_COMMAND_COUNT as int, |i: int| command_matches(i, lower(query)))
}

/// Note `n` is found by the (trimmed, lower-cased) search `q`: `q` is empty or occurs in
/// its title or body, ignoring ASCII case.
pub open spec fn note_matches(n: Note, q: Seq<char>) -> bool {
    ||| q.len() == 0
    ||| contains_seq(lower(n.title@), q)
    ||| contains_seq(lower(n.content@), q)
}

/// `a` is `b` except that the `updated` time of note `k` may differ.
pub open spec fn same_but_updated(a: Seq<Note>, b: Seq<Note>, k: int) -> bool {
    &&& a.len() == b.len()
    &&& forall|i: int| 0 <= i < a.len() && i != k ==> #[trigger] a[i] == b[i]
    &&& 0 <= k < a.len() ==> {
        &&& a[k].id == b[k].id
        &&& a[k].title == b[k].title
        &&& a[k].content == b[k].content
        &&& a[k].created == b[k].created
    }
}

/// The editor's state.
pub struct NoteApp {
    /// All notes, in list order.
    pub notes: Vec<Note>,
    /// Index of the note being edited.
    pub selected: usize,
    /// The search typed in the list.
    pub query: String,
    /// The status line.
    pub status: String,
    /// Whether there are edits not yet written.
    pub dirty: bool,
    /// When the last unsaved edit happened.
    pub last_edit: Option<std::time::Instant>,
    /// Colour scheme.
    pub theme: Theme,
    /// The `/` command menu.
    pub slash: SlashMenu,
    /// Cursor in the note body, in characters.
    pub editor_cursor: usize,
    /// A cursor position the body editor should move to.
    pub pending_cursor: Option<usize>,
    /// Whether a text field has focus.
    pub editing: bool,
}

/// `n` is the welcome note.
pub open spec fn is_welcome(n: Note) -> bool {
    &&& n.title@ == "Grass"@
    &&& n.content@ == ",,,,,,,,,,,,,,,,,,,,,,,,,,,,,,,,,, <- touch"@
    &&& n.id == n.created
    &&& n.created == n.updated
}

/// A new untitled note whose update time may have been moved on.
pub open spec fn is_untitled_note(n: Note) -> bool {
    &&& n.title@ == "Untitled"@
    &&& n.content@ == Seq::<char>::empty()
    &&& n.id == n.created
}

/// `b` is `a` after `new_note`: an untitled note is appended and selected, the search is
/// cleared, and the edit is recorded with status `New`.
pub open spec fn new_note_post(a: NoteApp, b: NoteApp) -> bool {
    &&& b.notes@.len() == a.notes@.len() + 1
    &&& forall|i: int| 0 <= i < a.notes@.len() ==> #[trigger] b.notes@[i] == a.notes@[i]
    &&& is_untitled_note(b.notes@.last())
    &&& b.selected == a.notes@.len()
    &&& b.query@ == Seq::<char>::empty()
    &&& b.dirty
    &&& b.last_edit is Some
    &&& b.status@ == "New"@
    &&& b.theme == a.theme
    &&& b.slash == a.slash
    &&& b.editor_cursor == a.editor_cursor
    &&& b.pending_cursor == a.pending_cursor
    &&& b.editing == a.editing
}

/// `b` is `a` after `delete_note`: with no notes nothing changes; otherwise the selected
/// note is removed (an untitled note takes its place when it was the only one), the note
/// now at its place (or the last) is selected, and the edit is recorded with status
/// `Deleted`.
pub open spec fn delete_note_post(a: NoteApp, b: NoteApp) -> bool {
    if a.notes@.len() == 0 {
        b == a
    } else {
        let rest = a.notes@.remove(a.selected as int);
        &&& rest.len() == 0 ==> b.notes@.len() == 1 && is_untitled_note(b.notes@[0]) && b.selected
            == 0
        &&& rest.len() > 0 ==> b.selected == vstd::math::min(a.selected as int, rest.len() - 1)
            && same_but_updated(b.notes@, rest, b.selected as int)
        &&& b.dirty
        &&& b.last_edit is Some
        &&& b.status@ == "Deleted"@
        &&& b.query == a.query
        &&& b.theme == a.theme
        &&& b.slash == a.slash
        &&& b.editor_cursor == a.editor_cursor
        &&& b.pending_cursor == a.pending_cursor
        &&& b.editing == a.editing
    }
}

/// Deleting the note just added gives back the earlier notes (only the update time of the
/// note then selected, the last earlier one, may differ) and selects the last of them.
pub proof fn lemma_delete_undoes_new(a: NoteApp, b: NoteApp, c: NoteApp)
    requires
        a.notes@.len() > 0,
        new_note_post(a, b),
        delete_note_post(b, c),
    ensures
        c.selected == a.notes@.len() - 1,
        same_but_updated(c.notes@, a.notes@, c.selected as int),
{
    let rest = b.notes@.remove(b.selected as int);
    assert(rest =~= a.notes@);
}

impl NoteApp {
    /// There is a note and the selection points at one.
    pub open spec fn wf(&self) -> bool {
        0 < self.notes@.len() && self.selected < self.notes@.len()
    }

    /// Everything but the notes, the status and the save state is as in `other`.
    pub open spec fn same_view(&self, other: &NoteApp) -> bool {
        &&& self.selected == other.selected
        &&& self.query == other.query
        &&& self.theme == other.theme
        &&& self.slash == other.slash
        &&& self.editor_cursor == other.editor_cursor
        &&& self.pending_cursor == other.pending_cursor
        &&& self.editing == other.editing
    }

    /// The editor as it starts, given what reading the store gave: the notes read (the
    /// welcome note when there are none) or, when reading failed, the welcome note and a
    /// status that reports the failure.
    pub fn new(loaded: Result<Vec<Note>, String>) -> (app: NoteApp)
        ensures
            app.wf(),
            app.selected == 0,
            app.query@ == Seq::<char>::empty(),
            !app.dirty,
            app.last_edit is None,
            app.theme == Theme::Black,
            is_closed_menu(app.slash),
            app.editor_cursor == 0,
            app.pending_cursor is None,
            !app.editing,
            match loaded {
                Ok(ns) => app.status@ == "Ready"@ && if ns@.len() > 0 {
                    app.notes@ == ns@
                } else {
                    app.notes@.len() == 1 && is_welcome(app.notes@[0])
                },
                Err(e) => app.status@ == "Load fail: "@ + e@ && app.notes@.len() == 1 && is_welcome(
                    app.notes@[0],
                ),
            },
    {
        let mut status = String::from_str("Ready");
        let mut notes = match loaded {
            Ok(notes) => notes,
            Err(err) => {
                status = String::from_str("Load fail: ");
                status.append(err.as_str());
                Vec::new()
            },
        };
        if notes.len() == 0 {
            notes.push(welcome_note());
        }
        NoteApp {
            notes,
            selected: 0,
            query: String::new(),
            status,
            dirty: false,
            last_edit: None,
            theme: Theme::Black,
            slash: SlashMenu::closed(),
            editor_cursor: 0,
            pending_cursor: None,
            editing: false,
        }
    }

    /// How many notes there are.
    pub fn note_count(&self) -> (n: usize)
        ensures
            n == self.notes@.len(),
    {
        self.notes.len()
    }

    /// Records an edit: the selected note's update time, the unsaved state and the time of
    /// the edit.
    pub fn mark_dirty(&mut self)
        ensures
            same_but_updated(final(self).notes@, old(self).notes@, old(self).selected as int),
            final(self).same_view(old(self)),
            final(self).dirty,
            final(self).last_edit is Some,
            final(self).status@ == "Unsaved"@,
            old(self).wf() ==> final(self).wf(),
    {
        if self.selected < self.notes.len() {
            let now = unix_time();
            let sel = self.selected;
            self.notes[sel].updated = now;
        }
        self.dirty = true;
        self.last_edit = Some(instant_now());
        self.status = String::from_str("Unsaved");
    }

    /// Records the outcome of writing the notes to the store.
    pub fn save(&mut self, written: Result<(), String>)
        ensures
            final(self).notes == old(self).notes,
            final(self).same_view(old(self)),
            match written {
                Ok(()) => !final(self).dirty && final(self).last_edit is None && final(self).status@
                    == "Saved"@,
                Err(e) => final(self).dirty == old(self).dirty && final(self).last_edit == old(
                    self,
                ).last_edit && final(self).status@ == "Save fail: "@ + e@,
            },
    {
        match written {
            Ok(()) => {
                self.dirty = false;
                self.last_edit = None;
                self.status = String::from_str("Saved");
            },
            Err(err) => {
                let mut status = String::from_str("Save fail: ");
                status.append(err.as_str());
                self.status = status;
            },
        }
    }

    /// Whether an autosave is due when `elapsed_ms` milliseconds have passed since the last
    /// edit: there are unsaved edits and the last one is at least `AUTOSAVE_AFTER_MS` old.
    pub fn autosave_due(&self, elapsed_ms: u128) -> (due: bool)
        ensures
            due == (self.dirty && self.last_edit is Some && elapsed_ms >= AUTOSAVE_AFTER_MS),
    {
        self.dirty && self.last_edit.is_some() && elapsed_ms >= AUTOSAVE_AFTER_MS
    }

    /// Whether an autosave is due now (see `autosave_due`); the time since the last edit is
    /// read from the clock.
    pub fn autosave(&self) -> (due: bool)
        ensures
            due ==> self.dirty && self.last_edit is Some,
            !self.dirty || self.last_edit is None ==> !due,
    {
        match &self.last_edit {
            Some(last) => self.autosave_due(elapsed_millis(last)),
            None => false,
        }
    }

    /// Adds an untitled note, selects it and clears the search.
    pub fn new_note(&mut self)
        requires
            old(self).notes@.len() < usize::MAX,
        ensures
            new_note_post(*old(self), *final(self)),
            final(self).wf(),
    {
        let note = Note::new("Untitled");
        self.notes.push(note);
        self.selected = self.notes.len() - 1;
        self.query = String::new();
        self.mark_dirty();
        self.status = String::from_str("New");
    }

    /// Applies the keyboard shortcuts of one frame (after a save that was asked for has
    /// been recorded): a new note, the `Find` status, clearing the search, in that order.
    pub fn shortcuts(&mut self, new: bool, find: bool, clear: bool)
        requires
            new ==> old(self).notes@.len() < usize::MAX,
        ensures
            new ==> {
                &&& final(self).notes@.len() == old(self).notes@.len() + 1
                &&& forall|i: int| 0 <= i < old(self).notes@.len() ==> #[trigger] final(self).notes@[i] == old(self).notes@[i]
                &&& is_untitled_note(final(self).notes@.last())
                &&& final(self).selected == old(self).notes@.len()
                &&& final(self).dirty
                &&& final(self).last_edit is Some
            },
            !new ==> {
                &&& final(self).notes == old(self).notes
                &&& final(self).selected == old(self).selected
                &&& final(self).dirty == old(self).dirty
                &&& final(self).last_edit == old(self).last_edit
            },
            final(self).status@ == (if find {
                "Find"@
            } else if new {
                "New"@
            } else {
                old(self).status@
            }),
            final(self).query@ == (if new || clear {
                Seq::<char>::empty()
            } else {
                old(self).query@
            }),
            final(self).theme == old(self).theme,
            final(self).slash == old(self).slash,
            final(self).editor_cursor == old(self).editor_cursor,
            final(self).pending_cursor == old(self).pending_cursor,
            final(self).editing == old(self).editing,
    {
        if new {
            self.new_note();
        }
        if find {
            self.status = String::from_str("Find");
        }
        if clear {
            self.query = String::new();
        }
    }

    /// Deletes the selected note, keeping at least one note, and selects the note now at
    /// that place (the last one when the deleted note was last).
    pub fn delete_note(&mut self)
        requires
            old(self).notes@.len() > 0 ==> old(self).selected < old(self).notes@.len(),
        ensures
            delete_note_post(*old(self), *final(self)),
            old(self).notes@.len() > 0 ==> final(self).wf(),
    {
        if self.notes.len() == 0 {
            return;
        }
        let sel = self.selected;
        self.notes.remove(sel);
        if self.notes.len() == 0 {
            self.notes.push(Note::new("Untitled"));
        }
        let last = self.notes.len() - 1;
        self.selected = if sel < last {
            sel
        } else {
            last
        };
        self.mark_dirty();
        self.status = String::from_str("Deleted");
    }

    /// The indices of the notes the search finds, in list order.
    pub fn filtered_indices(&self) -> (r: Vec<usize>)
        ensures
            r@ == indices_where(
                self.notes@.len() as int,
                |i: int| note_matches(self.notes@[i], lower(trim(self.query@))),
            ),
    {
        let qv = crate::text::chars_of(self.query.as_str());
        let (a, b) = crate::text::trim_bounds(&qv, 0, qv.len());
        assert(qv@.subrange(0, qv@.len() as int) == qv@);
        let trimmed = crate::text::string_of(&qv, a, b);
        let query = lower_chars(trimmed.as_str());
        let ghost pred = |i: int| note_matches(self.notes@[i], lower(trim(self.query@)));
        let mut r: Vec<usize> = Vec::new();
        let mut i: usize = 0;
        while i < self.notes.len()
            invariant
                i <= self.notes@.len(),
                query@ == lower(trim(self.query@)),
                pred == (|i: int| note_matches(self.notes@[i], lower(trim(self.query@)))),
                r@ == indices_where(i as int, pred),
            decreases self.notes@.len() - i,
        {
            let title = lower_chars(self.notes[i].title.as_str());
            let content = lower_chars(self.notes[i].content.as_str());
            let found = query.len() == 0 || contains_chars(&title, &query) || contains_chars(
                &content,
                &query,
            );
            assert(found == pred(i as int));
            if found {
                r.push(i);
            }
            i += 1;
        }
        r
    }

    /// Closes and resets the `/` command menu.
    pub fn close_slash(&mut self)
        ensures
            is_closed_menu(final(self).slash),
            final(self).notes == old(self).notes,
            final(self).selected == old(self).selected,
            final(self).query == old(self).query,
            final(self).status == old(self).status,
            final(self).dirty == old(self).dirty,
            final(self).last_edit == old(self).last_edit,
            final(self).theme == old(self).theme,
            final(self).editor_cursor == old(self).editor_cursor,
            final(self).pending_cursor == old(self).pending_cursor,
            final(self).editing == old(self).editing,
    {
        self.slash = SlashMenu::closed();
    }

    /// The commands the menu lists for the typed query, in menu order.
    pub fn slash_match_indices(&self) -> (r: Vec<usize>)
        ensures
            r@ == command_matches_for(self.slash.query@),
    {
        let query = lower_chars(self.slash.query.as_str());
        let cmds = slash_commands();
        let ghost pred = |i: int| command_matches(i, lower(self.slash.query@));
        let mut r: Vec<usize> = Vec::new();
        let mut i: usize = 0;
        while i < cmds.len()
            invariant
                i <= cmds@.len() == SLASH_COMMAND_COUNT,
                forall|j: int| 0 <= j < cmds@.len() ==> is_command(#[trigger] cmds@[j], j),
                query@ == lower(self.slash.query@),
                pred == (|i: int| command_matches(i, lower(self.slash.query@))),
                r@ == indices_where(i as int, pred),
            decreases cmds@.len() - i,
        {
            let cmd = cmds[i];
            assert(is_command(cmds@[i as int], i as int));
            let label = lower_chars(cmd.label);
            let detail = lower_chars(cmd.detail);
            let search = lower_chars(cmd.search);
            let found = query.len() == 0 || contains_chars(&label, &query) || contains_chars(
                &detail,
                &query,
            ) || contains_chars(&search, &query);
            assert(found == pred(i as int));
            if found {
                r.push(i);
            }
            i += 1;
        }
        r
    }

    /// Moves the menu highlight by `delta` rows, wrapping around the matching commands.
    pub fn slash_move_selection(&mut self, delta: isize)
        requires
            command_matches_for(old(self).slash.query@).len() > 0 ==> isize::MIN <= (old(
                self,
            ).slash.selected as isize) + delta <= isize::MAX,
        ensures
            ({
                let count = command_matches_for(old(self).slash.query@).len();
                if count == 0 {
                    *final(self) == *old(self)
                } else {
                    &&& final(self).slash.selected == ((old(self).slash.selected as isize)
                        + delta) % (count as int)
                    &&& final(self).slash.selection_changed
                    &&& final(self).slash.visible == old(self).slash.visible
                    &&& final(self).slash.query == old(self).slash.query
                    &&& final(self).slash.start == old(self).slash.start
                    &&& final(self).slash.end == old(self).slash.end
                    &&& final(self).notes == old(self).notes
                    &&& final(self).selected == old(self).selected
                    &&& final(self).query == old(self).query
                    &&& final(self).status == old(self).status
                    &&& final(self).dirty == old(self).dirty
                    &&& final(self).last_edit == old(self).last_edit
                    &&& final(self).theme == old(self).theme
                    &&& final(self).editor_cursor == old(self).editor_cursor
                    &&& final(self).pending_cursor == old(self).pending_cursor
                    &&& final(self).editing == old(self).editing
                }
            }),
    {
        let matches = self.slash_match_indices();
        if matches.len() == 0 {
            return;
        }
        proof {
            lemma_indices_where_len(SLASH_COMMAND_COUNT as int, |i: int| command_matches(i, lower(self.slash.query@)));
        }
        let len = matches.len() as isize;
        let sum = self.slash.selected as isize + delta;
        match sum.checked_rem_euclid(len) {
            Some(new_sel) => {
                self.slash.selected = new_sel as usize;
                self.slash.selection_changed = true;
            },
            None => {},
        }
    }

    /// Handles the menu keys of one frame while the menu is shown: up and down move the
    /// highlight (in that order), then escape closes the menu. Nothing happens while the
    /// menu is hidden.
    pub fn consume_slash_keys(&mut self, up: bool, down: bool, close: bool)
        requires
            old(self).slash.visible && command_matches_for(old(self).slash.query@).len() > 0 && up
                ==> isize::MIN <= (old(self).slash.selected as isize) - 1,
            old(self).slash.visible && command_matches_for(old(self).slash.query@).len() > 0 && down
                && !up ==> (old(self).slash.selected as isize) + 1 <= isize::MAX,
        ensures
            !old(self).slash.visible ==> *final(self) == *old(self),
            old(self).slash.visible ==> {
                let count = command_matches_for(old(self).slash.query@).len() as int;
                let sel0 = (old(self).slash.selected as isize) as int;
                let sel1 = if up && count > 0 {
                    (sel0 - 1) % count
                } else {
                    sel0
                };
                let sel2 = if down && count > 0 {
                    (sel1 + 1) % count
                } else if up && count > 0 {
                    sel1
                } else {
                    old(self).slash.selected as int
                };
                &&& close ==> is_closed_menu(final(self).slash)
                &&& !close ==> {
                    &&& final(self).slash.selected == sel2
                    &&& final(self).slash.selection_changed == (old(self).slash.selection_changed
                        || ((up || down) && count > 0))
                    &&& final(self).slash.visible == old(self).slash.visible
                    &&& final(self).slash.query == old(self).slash.query
                    &&& final(self).slash.start == old(self).slash.start
                    &&& final(self).slash.end == old(self).slash.end
                }
                &&& final(self).notes == old(self).notes
                &&& final(self).selected == old(self).selected
                &&& final(self).query == old(self).query
                &&& final(self).status == old(self).status
                &&& final(self).dirty == old(self).dirty
                &&& final(self).last_edit == old(self).last_edit
                &&& final(self).theme == old(self).theme
                &&& final(self).editor_cursor == old(self).editor_cursor
                &&& final(self).pending_cursor == old(self).pending_cursor
                &&& final(self).editing == old(self).editing
            },
    {
        if !self.slash.visible {
            return;
        }
        let ghost count = command_matches_for(self.slash.query@).len() as int;
        proof {
            lemma_indices_where_len(
                SLASH_COMMAND_COUNT as int,
                |i: int| command_matches(i, lower(self.slash.query@)),
            );
        }
        if up {
            self.slash_move_selection(-1);
            proof {
                if count > 0 {
                    vstd::arithmetic::div_mod::lemma_mod_bound((old(self).slash.selected as isize) - 1, count);
                }
            }
        }
        if down {
            self.slash_move_selection(1);
        }
        if close {
            self.close_slash();
        }
    }

    /// The command under the menu highlight, if the highlight is on a listed command.
    pub fn highlighted_command(&self) -> (r: Option<usize>)
        ensures
            ({
                let matches = command_matches_for(self.slash.query@);
                &&& self.slash.selected < matches.len() ==> r == Some(matches[self.slash.selected as int])
                &&& self.slash.selected >= matches.len() ==> r is None
            }),
    {
        let matches = self.slash_match_indices();
        if self.slash.selected < matches.len() {
            Some(matches[self.slash.selected])
        } else {
            None
        }
    }

    /// Opens or updates the `/` menu for a `/command` being typed before `cursor` in the
    /// focused body; closes it otherwise. Nothing changes when the body is not focused.
    pub fn update_slash_menu(&mut self, content: &str, cursor: usize, focused: bool)
        ensures
            !focused ==> *final(self) == *old(self),
            focused ==> {
                let c = vstd::math::min(cursor as int, content@.len() as int);
                &&& (exists|k: int| slash_opens(content@, c, k)) ==> {
                    &&& final(self).slash.visible
                    &&& slash_opens(content@, c, final(self).slash.start as int)
                    &&& final(self).slash.query@ == content@.subrange(final(self).slash.start + 1, c)
                    &&& final(self).slash.end == cursor
                    &&& final(self).slash.selected == vstd::math::min(
                        old(self).slash.selected as int,
                        if command_matches_for(final(self).slash.query@).len() > 0 {
                            command_matches_for(final(self).slash.query@).len() - 1
                        } else {
                            0
                        },
                    )
                    &&& final(self).slash.selection_changed == old(self).slash.selection_changed
                }
                &&& !(exists|k: int| slash_opens(content@, c, k)) ==> is_closed_menu(final(self).slash)
                &&& final(self).notes == old(self).notes
                &&& final(self).selected == old(self).selected
                &&& final(self).query == old(self).query
                &&& final(self).status == old(self).status
                &&& final(self).dirty == old(self).dirty
                &&& final(self).last_edit == old(self).last_edit
                &&& final(self).theme == old(self).theme
                &&& final(self).editor_cursor == old(self).editor_cursor
                &&& final(self).pending_cursor == old(self).pending_cursor
                &&& final(self).editing == old(self).editing
            },
    {
        if !focused {
            return;
        }
        match slash_trigger(content, cursor) {
            Some((start, query)) => {
                self.slash.visible = true;
                self.slash.query = query;
                self.slash.start = start;
                self.slash.end = cursor;
                let count = self.slash_match_indices().len();
                let top = if count > 0 {
                    count - 1
                } else {
                    0
                };
                if self.slash.selected > top {
                    self.slash.selected = top;
                }
            },
            None => {
                self.close_slash();
            },
        }
    }

    /// Applies command `command_index`: replaces the typed `/query` in the selected note
    /// with the command's text, moves the cursor into it, closes the menu and records the
    /// edit. Nothing happens for an unknown command or when no note is selected.
    pub fn apply_slash_command(&mut self, command_index: usize)
        requires
            command_index < SLASH_COMMAND_COUNT && old(self).selected < old(self).notes@.len()
                ==> old(self).slash.start + cmd_cursor(command_index as int) <= usize::MAX,
        ensures
            !(command_index < SLASH_COMMAND_COUNT && old(self).selected < old(self).notes@.len())
                ==> *final(self) == *old(self),
            command_index < SLASH_COMMAND_COUNT && old(self).selected < old(self).notes@.len()
                ==> {
                let sel = old(self).selected as int;
                let before = old(self).notes@[sel];
                &&& final(self).notes@.len() == old(self).notes@.len()
                &&& forall|i: int| 0 <= i < old(self).notes@.len() && i != sel ==> #[trigger] final(self).notes@[i] == old(self).notes@[i]
                &&& final(self).notes@[sel].content@ == replaced(
                    before.content@,
                    old(self).slash.start as int,
                    old(self).slash.end as int,
                    cmd_insert(command_index as int),
                )
                &&& final(self).notes@[sel].title == before.title
                &&& final(self).notes@[sel].id == before.id
                &&& final(self).notes@[sel].created == before.created
                &&& final(self).editor_cursor == old(self).slash.start + cmd_cursor(command_index as int)
                &&& final(self).pending_cursor == Some(final(self).editor_cursor)
                &&& is_closed_menu(final(self).slash)
                &&& final(self).dirty
                &&& final(self).last_edit is Some
                &&& final(self).status@ == cmd_label(command_index as int)
                &&& final(self).selected == old(self).selected
                &&& final(self).query == old(self).query
                &&& final(self).theme == old(self).theme
                &&& final(self).editing == old(self).editing
                &&& final(self).wf()
            },
    {
        let command = match slash_command(command_index) {
            Some(c) => c,
            None => return,
        };
        if self.selected >= self.notes.len() {
            return;
        }
        let sel = self.selected;
        let start = self.slash.start;
        let end = self.slash.end;
        replace_char_range(&mut self.notes[sel].content, start, end, command.insert);
        self.editor_cursor = start + command.cursor;
        self.pending_cursor = Some(self.editor_cursor);
        self.close_slash();
        self.mark_dirty();
        self.status = String::from_str(command.label);
    }

    /// The status line to show: a failure stays visible; otherwise `Editing` while a field
    /// has focus, `Unsaved` while there are unsaved edits, else the last status.
    pub fn status_text(&self) -> (r: String)
        ensures
            r@ == (if contains_seq(self.status@, "fail"@) {
                self.status@
            } else if self.editing {
                "Editing"@
            } else if self.dirty {
                "Unsaved"@
            } else {
                self.status@
            }),
    {
        let status = crate::text::chars_of(self.status.as_str());
        let fail = crate::text::chars_of("fail");
        if contains_chars(&status, &fail) {
            self.status.clone()
        } else if self.editing {
            String::from_str("Editing")
        } else if self.dirty {
            String::from_str("Unsaved")
        } else {
            self.status.clone()
        }
    }
}

/// `indices_where` lists at most `n` indices, each below `n`.
pub proof fn lemma_indices_where_len(n: int, p: spec_fn(int) -> bool)
    requires
        n >= 0,
    ensures
        indices_where(n, p).len() <= n,
        forall|k: int| 0 <= k < indices_where(n, p).len() ==> #[trigger] indices_where(n, p)[k] < n,
    decreases n,
{
    if n > 0 {
        lemma_indices_where_len(n - 1, p);
        let prev = indices_where(n - 1, p);
        assert forall|k: int| 0 <= k < indices_where(n, p).len() implies #[trigger] indices_where(n, p)[k] < n by {
            if k < prev.len() {
                assert(indices_where(n, p)[k] == prev[k]);
            }
        }
    }
}

/// When every index satisfies `p`, `indices_where` lists all of them.
pub proof fn lemma_indices_where_all(n: int, p: spec_fn(int) -> bool)
    requires
        0 <= n <= usize::MAX,
        forall|i: int| 0 <= i < n ==> #[trigger] p(i),
    ensures
        indices_where(n, p) == Seq::new(n as nat, |i: int| i as usize),
    decreases n,
{
    if n > 0 {
        lemma_indices_where_all(n - 1, p);
        assert(indices_where(n, p) =~= Seq::new(n as nat, |i: int| i as usize));
    } else {
        assert(indices_where(n, p) =~= Seq::new(n as nat, |i: int| i as usize));
    }
}

/// A blank search lists every note, in order.
pub proof fn lemma_blank_search_lists_all(notes: Seq<Note>, query: Seq<char>)
    requires
        trim(query).len() == 0,
        notes.len() <= usize::MAX,
    ensures
        indices_where(notes.len() as int, |i: int| note_matches(notes[i], lower(trim(query))))
            == Seq::new(notes.len(), |i: int| i as usize),
{
    lemma_indices_where_all(notes.len() as int, |i: int| note_matches(notes[i], lower(trim(query))));
}

/// An empty `/` query lists every command, in menu order.
pub proof fn lemma_empty_query_lists_all_commands(query: Seq<char>)
    requires
        query.len() == 0,
    ensures
        command_matches_for(query) == Seq::new(SLASH_COMMAND_COUNT as nat, |i: int| i as usize),
{
    lemma_indices_where_all(SLASH_COMMAND_COUNT as int, |i: int| command_matches(i, lower(query)));
}

/// The cursor a command leaves stays inside the text it inserted.
pub proof fn lemma_command_cursor_in_insert(i: int)
    requires
        0 <= i < SLASH_COMMAND_COUNT,
    ensures
        cmd_cursor(i) <= cmd_insert(i).len(),
{
    reveal_strlit("");
    reveal_strlit("# ");
    reveal_strlit("## ");
    reveal_strlit("### ");
    reveal_strlit("- [ ] ");
    reveal_strlit("- ");
    reveal_strlit("1. ");
    reveal_strlit("> ");
    reveal_strlit("---\n");
    reveal_strlit("```\n\n```");
    reveal_strlit("> Note: ");
    reveal_strlit("[text](url)");
    reveal_strlit("|   |   |\n|---|---|\n|   |   |");
    reveal_strlit("****");
    reveal_strlit("**");
    reveal_strlit("~~~~");
}

/// The command labelled `Heading n` (n from 1 to 3) inserts n number signs and a space and
/// leaves the cursor right after them, and that line is laid out as a heading of level n.
pub proof fn lemma_heading_commands(i: int, level: nat)
    requires
        0 <= i < SLASH_COMMAND_COUNT,
        1 <= level <= 3,
        cmd_label(i) == "Heading "@.push(digit_char(level as int)),
    ensures
        cmd_insert(i) == heading_marker(level),
        cmd_cursor(i) == cmd_insert(i).len(),
        ({
            let h = LineBase::Heading(level as usize);
            line_spans(cmd_insert(i), 0, false) == (
                false,
                seq![
                    (0int, (level + 1) as int, SpanStyle::Marker(h)),
                    ((level + 1) as int, (level + 1) as int, SpanStyle::Text(h)),
                ],
            )
        }),
{
    reveal_strlit("Heading ");
    reveal_strlit("Text");
    reveal_strlit("Heading 1");
    reveal_strlit("Heading 2");
    reveal_strlit("Heading 3");
    reveal_strlit("To-do list");
    reveal_strlit("Bulleted list");
    reveal_strlit("Numbered list");
    reveal_strlit("Quote");
    reveal_strlit("Divider");
    reveal_strlit("Code");
    reveal_strlit("Callout");
    reveal_strlit("Link");
    reveal_strlit("Table");
    reveal_strlit("Bold");
    reveal_strlit("Italic");
    reveal_strlit("Strikethrough");
    reveal_strlit("# ");
    reveal_strlit("## ");
    reveal_strlit("### ");
    let want = "Heading "@.push(digit_char(level as int));
    assert(want.len() == 9);
    assert(want[8] == digit_char(level as int));
    assert(i == level) by {
        if i == 1 || i == 2 || i == 3 {
            assert(cmd_label(i)[8] == want[8]);
        }
    }
    assert(cmd_insert(i) =~= heading_marker(level));
    let e = Seq::<char>::empty();
    lemma_heading_line(e, level, e, 0);
    assert(e + heading_marker(level) + e =~= cmd_insert(i));
}

/// The list and quote commands insert the marker that the editor then continues or draws:
/// `To-do list` an open to-do marker, `Bulleted list` a bullet, `Numbered list` item number
/// one, `Quote` a quote marker; each leaves the cursor after its marker.
pub proof fn lemma_block_commands(i: int)
    requires
        0 <= i < SLASH_COMMAND_COUNT,
    ensures
        cmd_label(i) == "To-do list"@ ==> cmd_insert(i) == todo_open() && cmd_cursor(i) == 6,
        cmd_label(i) == "Bulleted list"@ ==> list_prefix(cmd_insert(i)) == Some(seq!['-', ' '])
            && cmd_cursor(i) == cmd_insert(i).len(),
        cmd_label(i) == "Numbered list"@ ==> numbered(cmd_insert(i)) == Some((1usize, false))
            && cmd_cursor(i) == cmd_insert(i).len(),
        cmd_label(i) == "Quote"@ ==> cmd_insert(i) == quote_marker() && cmd_cursor(i) == 2,
{
    reveal_strlit("Text");
    reveal_strlit("Heading 1");
    reveal_strlit("Heading 2");
    reveal_strlit("Heading 3");
    reveal_strlit("To-do list");
    reveal_strlit("Bulleted list");
    reveal_strlit("Numbered list");
    reveal_strlit("Quote");
    reveal_strlit("Divider");
    reveal_strlit("Code");
    reveal_strlit("Callout");
    reveal_strlit("Link");
    reveal_strlit("Table");
    reveal_strlit("Bold");
    reveal_strlit("Italic");
    reveal_strlit("Strikethrough");
    reveal_strlit("- [ ] ");
    reveal_strlit("- ");
    reveal_strlit("1. ");
    reveal_strlit("> ");
    if cmd_label(i) == "To-do list"@ {
        assert(cmd_label(i).len() == 10);
        assert(i == 4);
        assert(cmd_insert(i) =~= todo_open());
    }
    if cmd_label(i) == "Bulleted list"@ {
        assert(cmd_label(i)[0] == 'B' && cmd_label(i).len() == 13);
        assert(i == 5);
        let x = cmd_insert(i);
        assert(x =~= seq!['-', ' ']);
        assert(x.take(2) =~= seq!['-', ' ']);
    }
    if cmd_label(i) == "Numbered list"@ {
        assert(cmd_label(i)[0] == 'N' && cmd_label(i).len() == 13);
        assert(i == 6);
        lemma_numbered_marker(1);
        assert(decimal(1) =~= seq!['1']);
        assert(cmd_insert(i) =~= decimal(1) + seq!['.', ' ']);
    }
    if cmd_label(i) == "Quote"@ {
        assert(cmd_label(i)[0] == 'Q' && cmd_label(i).len() == 5);
        assert(i == 7);
        assert(cmd_insert(i) =~= quote_marker());
    }
}

} // verus!

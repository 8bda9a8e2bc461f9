use note::app::{slash_command, slash_commands, NoteApp, Theme, SLASH_COMMAND_COUNT};
use note::editing::{apply_smart_newline, numbered_marker, slash_trigger, toggle_checkbox_at};
use note::layout::{markdown_spans, overlay_marks, LineBase, Mark, Span, SpanStyle};
use note::markdown::{
    build_table_cell, is_divider_line, is_table_row, is_table_separator_cell,
    is_visual_only_markdown_line, parse_table_cells, table_blocks, table_cell_at_cursor,
    table_column_count,
};
use note::note::{legacy_data_path, note_word_count, parse_legacy_notes, Note};
use note::text::{char_to_byte, replace_char_range, truncate};

fn note_with(title: &str, content: &str) -> Note {
    Note {
        id: 1,
        title: title.to_string(),
        content: content.to_string(),
        created: 1,
        updated: 1,
    }
}

#[test]
fn toggling_twice_restores_text() {
    let before = "  - [x] a\n- [ ] b\n".to_string();
    let mut text = before.clone();
    assert!(toggle_checkbox_at(&mut text, 12));
    assert_eq!(text, "  - [x] a\n- [x] b\n");
    assert!(toggle_checkbox_at(&mut text, 12));
    assert_eq!(text, before);
}

#[test]
fn toggle_ignores_cursor_off_marker() {
    let mut text = "- [ ] done".to_string();
    assert!(!toggle_checkbox_at(&mut text, 8));
    assert_eq!(text, "- [ ] done");
    let mut plain = "no box".to_string();
    assert!(!toggle_checkbox_at(&mut plain, 0));
}

#[test]
fn second_enter_ends_list() {
    let mut text = "  - a\n".to_string();
    let cursor = text.chars().count();
    let next = apply_smart_newline(&mut text, cursor).unwrap();
    assert_eq!(text, "  - a\n  - ");
    text.push('\n');
    let again = apply_smart_newline(&mut text, next + 1);
    assert_eq!(again, Some("  - a\n".chars().count()));
    assert_eq!(text, "  - a\n");
}

#[test]
fn smart_newline_quote_and_carriage_return() {
    let mut text = "> q\r\n".to_string();
    let cursor = text.chars().count();
    assert_eq!(apply_smart_newline(&mut text, cursor), Some(cursor + 2));
    assert_eq!(text, "> q\r\n> ");
}

#[test]
fn smart_newline_needs_line_feed_before_cursor() {
    let mut text = "- a".to_string();
    assert_eq!(apply_smart_newline(&mut text, 3), None);
    assert_eq!(apply_smart_newline(&mut text, 0), None);
    assert_eq!(apply_smart_newline(&mut text, 10), None);
    assert_eq!(text, "- a");
}

#[test]
fn numbered_markers() {
    assert_eq!(numbered_marker("12. x"), Some((12, true)));
    assert_eq!(numbered_marker("3."), Some((3, false)));
    assert_eq!(numbered_marker("3.  "), Some((3, false)));
    assert_eq!(numbered_marker("1.x"), None);
    assert_eq!(numbered_marker("x1. a"), None);
    assert_eq!(numbered_marker("99999999999999999999999. a"), None);
}

#[test]
fn numbering_rolls_over_digits() {
    let mut text = "99. x\n".to_string();
    let next = apply_smart_newline(&mut text, 6);
    assert_eq!(text, "99. x\n100. ");
    assert_eq!(next, Some(11));
}

#[test]
fn slash_trigger_stops_at_whitespace() {
    assert_eq!(slash_trigger("a /b c", 6), None);
    assert_eq!(slash_trigger("/", 1), Some((0, String::new())));
    assert_eq!(slash_trigger("x/y", 100), Some((1, "y".to_string())));
}

#[test]
fn truncate_edges() {
    assert_eq!(truncate("abc", 3), "abc");
    assert_eq!(truncate("abc", 0), "~");
    assert_eq!(truncate("abcd", 1), "~");
    assert_eq!(truncate("한글한글", 3), "한글~");
}

#[test]
fn char_offsets_are_utf8_bytes() {
    assert_eq!(char_to_byte("한글a", 1), 3);
    assert_eq!(char_to_byte("한글a", 2), 6);
    assert_eq!(char_to_byte("한글a", 9), 7);
    assert_eq!(char_to_byte("", 0), 0);
}

#[test]
fn replacing_clamps_and_skips_reversed_ranges() {
    let mut text = "abc".to_string();
    replace_char_range(&mut text, 2, 1, "X");
    assert_eq!(text, "abc");
    replace_char_range(&mut text, 1, 99, "Z");
    assert_eq!(text, "aZ");
    replace_char_range(&mut text, 9, 9, "!");
    assert_eq!(text, "aZ!");
}

#[test]
fn display_title_choices() {
    assert_eq!(note_with("  Plan  ", "body").display_title(), "Plan");
    assert_eq!(note_with(" ", "").display_title(), "Untitled");
    assert_eq!(note_with("", "***\n  \n").display_title(), "Untitled");
    let long = "x".repeat(60);
    assert_eq!(note_with("", &long).display_title(), "x".repeat(48));
    assert_eq!(note_with("", "  first \r\nsecond").display_title(), "first");
}

#[test]
fn word_counts() {
    assert_eq!(note_word_count(&note_with("", "")), 0);
    assert_eq!(note_word_count(&note_with("", "  one two\nthree ")), 3);
}

#[test]
fn legacy_store_edges() {
    let notes = parse_legacy_notes("\x1E  \x1Etitle only\x1E");
    assert_eq!(notes.len(), 1);
    assert_eq!(notes[0].title, "title only");
    assert_eq!(notes[0].content, "");
    assert_eq!(notes[0].id, notes[0].created);
    assert!(parse_legacy_notes("").is_empty());
}

#[test]
fn legacy_path_joins() {
    assert_eq!(legacy_data_path("/home/u"), "/home/u/.note_data.txt");
    assert_eq!(legacy_data_path("/home/u/"), "/home/u/.note_data.txt");
    assert_eq!(legacy_data_path(""), ".note_data.txt");
}

#[test]
fn divider_and_separator_cells() {
    assert!(is_divider_line("  ***  "));
    assert!(!is_divider_line("----"));
    assert!(is_table_separator_cell(" :---: "));
    assert!(!is_table_separator_cell("--"));
    assert!(!is_table_separator_cell("::"));
    assert!(is_visual_only_markdown_line("___"));
    assert!(!is_visual_only_markdown_line("text"));
}

#[test]
fn table_rows_and_columns() {
    assert!(is_table_row("  | a |"));
    assert!(!is_table_row("a | b"));
    let rows = vec![
        parse_table_cells("| a | b | c |"),
        parse_table_cells("|x|y|"),
        Vec::new(),
    ];
    assert_eq!(table_column_count(&rows), Some(2));
    assert_eq!(table_column_count(&[Vec::new()]), None);
    assert!(parse_table_cells("a|b").is_empty());
    let cells = parse_table_cells("| a |b\r\n");
    assert_eq!(cells.len(), 2);
    assert_eq!(cells[1].text, "b");
    assert_eq!(cells[1].raw_end, 6);
    assert!(table_cell_at_cursor(&[], 0).is_none());
    let (index, _) = table_cell_at_cursor(&cells, 50).unwrap();
    assert_eq!(index, 1);
}

#[test]
fn building_a_cell() {
    let chars: Vec<char> = "| :-- x --: |".chars().collect();
    let cell = build_table_cell(&chars, 1, 12);
    assert_eq!(cell.text, "x");
    assert_eq!((cell.clean_start, cell.clean_end), (6, 7));
    let sep = build_table_cell(&chars, 1, 4);
    assert_eq!(sep.text, "");
}

#[test]
fn spans_of_markdown_lines() {
    let spans = markdown_spans("# T\n```\n- [x] c\n```\n| a |\n");
    let expected = vec![
        Span { start: 0, end: 2, style: SpanStyle::Marker(LineBase::Heading(1)) },
        Span { start: 2, end: 4, style: SpanStyle::Text(LineBase::Heading(1)) },
        Span { start: 4, end: 8, style: SpanStyle::Text(LineBase::Code) },
        Span { start: 8, end: 14, style: SpanStyle::Checkbox(LineBase::Code) },
        Span { start: 14, end: 16, style: SpanStyle::Done(LineBase::Code) },
        Span { start: 16, end: 20, style: SpanStyle::Text(LineBase::Code) },
        Span { start: 20, end: 26, style: SpanStyle::Table },
    ];
    assert_eq!(spans, expected);
    assert_eq!(
        markdown_spans(""),
        vec![Span { start: 0, end: 0, style: SpanStyle::Text(LineBase::Normal) }]
    );
    assert_eq!(
        markdown_spans(" > q"),
        vec![
            Span { start: 0, end: 1, style: SpanStyle::Text(LineBase::Quote) },
            Span { start: 1, end: 3, style: SpanStyle::Marker(LineBase::Quote) },
            Span { start: 3, end: 4, style: SpanStyle::Text(LineBase::Quote) },
        ]
    );
}

#[test]
fn overlay_marks_of_lines() {
    let marks = overlay_marks("> q\n - [x] d\n ---\n");
    assert_eq!(marks, vec![Mark::QuoteBar(0), Mark::Checkbox(7, true), Mark::Rule(14, 17)]);
}

#[test]
fn commands_are_listed_in_order() {
    let commands = slash_commands();
    assert_eq!(commands.len(), SLASH_COMMAND_COUNT);
    assert_eq!(commands[12].label, "Table");
    assert!(slash_command(SLASH_COMMAND_COUNT).is_none());
    let app = NoteApp::new(Ok(Vec::new()));
    assert_eq!(app.slash_match_indices(), (0..SLASH_COMMAND_COUNT).collect::<Vec<_>>());
}

#[test]
fn app_starts_from_loaded_notes() {
    let app = NoteApp::new(Ok(vec![note_with("a", "b")]));
    assert_eq!(app.note_count(), 1);
    assert_eq!(app.notes[0].title, "a");
    assert_eq!(app.status, "Ready");
    assert_eq!(app.theme, Theme::Black);
    let failed = NoteApp::new(Err("boom".to_string()));
    assert_eq!(failed.status, "Load fail: boom");
    assert_eq!(failed.notes[0].title, "Grass");
}

#[test]
fn search_is_trimmed_and_case_blind() {
    let mut app = NoteApp::new(Ok(vec![
        note_with("Alpha", "x"),
        note_with("beta", "has ALPHA"),
        note_with("gamma", ""),
    ]));
    app.query = "  alpha ".to_string();
    assert_eq!(app.filtered_indices(), vec![0, 1]);
    app.query = "   ".to_string();
    assert_eq!(app.filtered_indices(), vec![0, 1, 2]);
}

#[test]
fn delete_after_new_restores_notes() {
    let mut app = NoteApp::new(Ok(vec![note_with("a", "1"), note_with("b", "2")]));
    app.new_note();
    assert_eq!(app.note_count(), 3);
    assert_eq!(app.selected, 2);
    assert_eq!(app.notes[2].title, "Untitled");
    assert_eq!(app.status, "New");
    app.delete_note();
    assert_eq!(app.note_count(), 2);
    assert_eq!(app.selected, 1);
    assert_eq!(app.notes[1].title, "b");
    assert_eq!(app.status, "Deleted");
    assert!(app.dirty);
}

#[test]
fn deleting_the_only_note_leaves_an_untitled_one() {
    let mut app = NoteApp::new(Ok(vec![note_with("a", "1")]));
    app.delete_note();
    assert_eq!(app.note_count(), 1);
    assert_eq!(app.notes[0].title, "Untitled");
    assert_eq!(app.selected, 0);
}

#[test]
fn save_outcomes_and_status() {
    let mut app = NoteApp::new(Ok(vec![note_with("a", "1")]));
    app.mark_dirty();
    assert_eq!(app.status_text(), "Unsaved");
    assert!(!app.autosave_due(699));
    assert!(app.autosave_due(700));
    app.save(Err("disk full".to_string()));
    assert_eq!(app.status_text(), "Save fail: disk full");
    app.editing = true;
    assert_eq!(app.status_text(), "Save fail: disk full");
    app.save(Ok(()));
    assert_eq!(app.status_text(), "Editing");
    app.editing = false;
    assert_eq!(app.status_text(), "Saved");
    assert!(!app.autosave());
    assert!(!app.autosave_due(10_000));
}

#[test]
fn slash_selection_wraps_from_largest_index() {
    let mut app = NoteApp::new(Ok(Vec::new()));
    app.slash.visible = true;
    app.slash.selected = usize::MAX;
    app.slash_move_selection(1);
    assert_eq!(app.slash.selected, 0);
    app.slash.selected = usize::MAX;
    app.consume_slash_keys(false, true, false);
    assert_eq!(app.slash.selected, 0);
    app.slash_move_selection(-1);
    assert_eq!(app.slash.selected, 15);
}

#[test]
fn slash_menu_round_trip() {
    let mut app = NoteApp::new(Ok(vec![note_with("a", "hi /ta")]));
    app.update_slash_menu("hi /ta", 6, false);
    assert!(!app.slash.visible);
    app.update_slash_menu("hi /ta", 6, true);
    assert!(app.slash.visible);
    assert_eq!(app.slash.query, "ta");
    assert_eq!((app.slash.start, app.slash.end), (3, 6));
    let matches = app.slash_match_indices();
    assert_eq!(matches, vec![4, 12, 14]);
    app.slash_move_selection(-1);
    assert_eq!(app.slash.selected, 2);
    assert!(app.slash.selection_changed);
    app.slash_move_selection(1);
    assert_eq!(app.slash.selected, 0);
    app.apply_slash_command(12);
    assert_eq!(app.notes[0].content, "hi |   |   |\n|---|---|\n|   |   |");
    assert_eq!(app.editor_cursor, 5);
    assert_eq!(app.pending_cursor, Some(5));
    assert!(!app.slash.visible);
    assert_eq!(app.status, "Table");
    app.update_slash_menu("no slash", 3, true);
    assert!(!app.slash.visible);
}

#[test]
fn unknown_command_changes_nothing() {
    let mut app = NoteApp::new(Ok(vec![note_with("a", "b")]));
    app.apply_slash_command(SLASH_COMMAND_COUNT);
    assert_eq!(app.notes[0].content, "b");
    assert_eq!(app.status, "Ready");
}

#[test]
fn shortcut_effects() {
    let mut app = NoteApp::new(Ok(vec![note_with("a", "b")]));
    app.query = "x".to_string();
    app.shortcuts(false, true, false);
    assert_eq!(app.status, "Find");
    assert_eq!(app.query, "x");
    app.shortcuts(true, false, false);
    assert_eq!(app.note_count(), 2);
    assert_eq!(app.status, "New");
    assert_eq!(app.query, "");
    app.query = "y".to_string();
    app.shortcuts(false, false, true);
    assert_eq!(app.query, "");
}

#[test]
fn table_blocks_are_maximal_runs() {
    assert_eq!(table_blocks(&[false, true, true, false, true]), vec![(1, 3), (4, 5)]);
    assert!(table_blocks(&[]).is_empty());
    assert!(table_blocks(&[false, false]).is_empty());
}

#[test]
fn unix_time_is_after_epoch() {
    assert!(note::clock::unix_time() > 1_600_000_000);
}

#[test]
fn menu_keys_move_then_close() {
    let mut app = NoteApp::new(Ok(vec![note_with("a", "/ta")]));
    app.consume_slash_keys(true, false, false);
    assert_eq!(app.slash.selected, 0);
    app.update_slash_menu("/ta", 3, true);
    assert_eq!(app.highlighted_command(), Some(4));
    app.consume_slash_keys(true, false, false);
    assert_eq!(app.slash.selected, 2);
    assert_eq!(app.highlighted_command(), Some(14));
    app.consume_slash_keys(true, true, false);
    assert_eq!(app.slash.selected, 2);
    app.consume_slash_keys(false, true, true);
    assert!(!app.slash.visible);
    assert_eq!(app.slash.selected, 0);
    assert_eq!(app.highlighted_command(), Some(0));
}

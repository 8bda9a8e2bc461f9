use note::app::{slash_commands, NoteApp};
use note::editing::{apply_smart_newline, slash_trigger, toggle_checkbox_at};
use note::markdown::{
    is_table_divider_line, parse_table_cells, table_cell_at_cursor, table_cell_display_offset,
    table_cells,
};
use note::note::{parse_legacy_notes, welcome_note, Note};
use note::text::{replace_char_range, truncate};

#[test]
fn legacy_notes_keep_content() {
    let notes = parse_legacy_notes("A\none\ntwo\x1EB\nthree");
    assert_eq!(notes.len(), 2);
    assert_eq!(notes[0].title, "A");
    assert_eq!(notes[0].content, "one\ntwo");
    assert_eq!(notes[1].title, "B");
}

#[test]
fn empty_title_uses_content() {
    let note = Note {
        id: 1,
        title: String::new(),
        content: "\nhello world".to_string(),
        created: 1,
        updated: 1,
    };
    assert_eq!(note.display_title(), "hello world");
}

#[test]
fn default_note_is_grass() {
    let note = welcome_note();
    assert_eq!(note.title, "Grass");
    assert_eq!(note.content, ",,,,,,,,,,,,,,,,,,,,,,,,,,,,,,,,,, <- touch");
}

#[test]
fn display_title_skips_visual_markdown_lines() {
    let note = Note {
        id: 1,
        title: String::new(),
        content: "---\n|---|---|\nreal title".to_string(),
        created: 1,
        updated: 1,
    };
    assert_eq!(note.display_title(), "real title");
}

#[test]
fn table_divider_lines_match_spacing_and_alignment() {
    assert!(is_table_divider_line("|---|---|"));
    assert!(is_table_divider_line("| --- | --- |"));
    assert!(is_table_divider_line("|:---|---:|:---:|"));
    assert!(!is_table_divider_line("| one | two |"));
    assert!(!is_table_divider_line("---"));
}

#[test]
fn table_cells_clean_visual_markers() {
    assert_eq!(
        table_cells("|-가능하다--|---|"),
        vec!["가능하다".to_string(), String::new()]
    );
    assert_eq!(
        table_cells("|이런   | 리스트도  |"),
        vec!["이런".to_string(), "리스트도".to_string()]
    );
}

#[test]
fn table_cursor_offset_uses_rendered_cell_text() {
    let cells = parse_table_cells("|까 아닐까|되는거라고 해야할까|");
    let (_, cell) = table_cell_at_cursor(&cells, 2).unwrap();
    assert_eq!(cell.text, "까 아닐까");
    assert_eq!(table_cell_display_offset(cell, 2), 1);

    let stripped_cells = parse_table_cells("|-가능하다--|---|");
    let (_, stripped) = table_cell_at_cursor(&stripped_cells, 4).unwrap();
    assert_eq!(stripped.text, "가능하다");
    assert_eq!(table_cell_display_offset(stripped, 4), 2);
}

#[test]
fn truncate_marks_long_text() {
    assert_eq!(truncate("abcdef", 4), "abc~");
}

#[test]
fn slash_trigger_reads_query() {
    assert_eq!(slash_trigger("hello /to", 9), Some((6, "to".to_string())));
    assert_eq!(slash_trigger("hello /to", 5), None);
}

#[test]
fn replacing_char_range_handles_unicode() {
    let mut text = "한글 /ti".to_string();
    replace_char_range(&mut text, 3, 6, "# ");
    assert_eq!(text, "한글 # ");
}

#[test]
fn checkbox_toggles_by_cursor() {
    let mut text = "- [ ] done".to_string();
    assert!(toggle_checkbox_at(&mut text, 2));
    assert_eq!(text, "- [x] done");
    assert!(toggle_checkbox_at(&mut text, 2));
    assert_eq!(text, "- [ ] done");
}

#[test]
fn smart_newline_continues_todo() {
    let mut text = "- [ ] one\n".to_string();
    let cursor = text.chars().count();
    let next = apply_smart_newline(&mut text, cursor);
    assert_eq!(next, Some("- [ ] one\n- [ ] ".chars().count()));
    assert_eq!(text, "- [ ] one\n- [ ] ");
}

#[test]
fn smart_newline_continues_numbered() {
    let mut text = "1. one\n".to_string();
    let cursor = text.chars().count();
    let next = apply_smart_newline(&mut text, cursor);
    assert_eq!(next, Some("1. one\n2. ".chars().count()));
    assert_eq!(text, "1. one\n2. ");
}

#[test]
fn smart_newline_stops_empty_numbered() {
    let mut text = "1.\n".to_string();
    let cursor = text.chars().count();
    let next = apply_smart_newline(&mut text, cursor);
    assert_eq!(next, Some(0));
    assert_eq!(text, "");
}

#[test]
fn smart_newline_stops_empty_numbered_after_item() {
    let mut text = "1. one\n2. \n".to_string();
    let cursor = text.chars().count();
    let next = apply_smart_newline(&mut text, cursor);
    assert_eq!(next, Some("1. one\n".chars().count()));
    assert_eq!(text, "1. one\n");
}

#[test]
fn smart_newline_continues_double_digit_number() {
    let mut text = "9. nine\n".to_string();
    let cursor = text.chars().count();
    let next = apply_smart_newline(&mut text, cursor);
    assert_eq!(next, Some("9. nine\n10. ".chars().count()));
    assert_eq!(text, "9. nine\n10. ");
}

#[test]
fn smart_newline_ignores_deleted_number_marker() {
    let mut text = ". item\n".to_string();
    let cursor = text.chars().count();
    let next = apply_smart_newline(&mut text, cursor);
    assert_eq!(next, None);
    assert_eq!(text, ". item\n");
}

#[test]
fn slash_matches_aliases() {
    let mut app = NoteApp::new(Ok(Vec::new()));
    app.slash.query = "ol".to_string();
    let commands = slash_commands();
    let labels = app
        .slash_match_indices()
        .into_iter()
        .map(|index| commands[index].label)
        .collect::<Vec<_>>();
    assert!(labels.contains(&"Numbered list"));
}

#[test]
fn smart_newline_removes_empty_marker() {
    let mut text = "- [ ] \n".to_string();
    let cursor = text.chars().count();
    let next = apply_smart_newline(&mut text, cursor);
    assert_eq!(next, Some(0));
    assert_eq!(text, "");
}

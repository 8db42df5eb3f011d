use editcore::editor::Editor;

fn row_strings(e: &Editor) -> Vec<(String, bool)> {
    e.get_display_lines()
        .into_iter()
        .map(|d| (d.text.into_iter().collect::<String>(), d.continuation))
        .collect()
}

#[test]
fn editor_shows_wrapped_rows() {
    let mut e = Editor::new("hello\nworld\n");
    e.update_pane_size(80, 10);
    assert_eq!(
        row_strings(&e),
        vec![("hello\n".to_string(), false), ("world\n".to_string(), false)]
    );
}

#[test]
fn editor_appends_missing_terminator() {
    let mut e = Editor::new("abc");
    e.update_pane_size(80, 10);
    assert_eq!(row_strings(&e), vec![("abc\n".to_string(), false)]);
}

#[test]
fn editor_long_line_wraps_at_default_width() {
    // the default width is forty columns
    let text: String = std::iter::repeat('a').take(45).collect();
    let mut e = Editor::new(&text);
    e.update_pane_size(80, 10);
    let rows = row_strings(&e);
    assert_eq!(rows.len(), 2);
    assert_eq!(rows[0].0.chars().count(), 40);
    assert!(!rows[0].1);
    assert_eq!(rows[1].0, "aaaaa\n");
    assert!(rows[1].1);
}

#[test]
fn editor_rows_bounded_by_pane_height() {
    let mut e = Editor::new("a\nb\nc\nd\ne\n");
    e.update_pane_size(80, 3);
    assert_eq!(row_strings(&e).len(), 3);
}

#[test]
fn editor_cursor_moves() {
    let mut e = Editor::new("one\ntwo\n");
    e.update_pane_size(80, 10);
    assert_eq!(e.cursor_position(), (0, 0));
    assert!(e.move_cursor_right());
    assert_eq!(e.cursor_position(), (1, 0));
    assert!(e.move_cursor_down());
    assert_eq!(e.cursor_position(), (1, 1));
    assert!(e.move_cursor_left());
    assert_eq!(e.cursor_position(), (0, 1));
    assert!(e.move_cursor_up());
    assert_eq!(e.cursor_position(), (0, 0));
    // at the left edge there is nowhere further left
    assert!(!e.move_cursor_left());
    // and the cursor never crosses the wrap width going right
    for _ in 0..100 {
        e.move_cursor_right();
    }
    assert!((e.cursor_position().0 as usize) < 40);
    assert!(e.move_cursor_at_0());
    assert_eq!(e.cursor_position().0, 0);
}

#[test]
fn editor_scrolls_within_bounds() {
    let mut e = Editor::new("a\nb\nc\n");
    e.update_pane_size(80, 2);
    assert_eq!(row_strings(&e)[0].0, "a\n");
    assert!(e.scroll_down());
    assert_eq!(row_strings(&e)[0].0, "b\n");
    assert!(e.scroll_down());
    assert_eq!(row_strings(&e)[0].0, "c\n");
    // the last row is the end of the document
    assert!(!e.scroll_down());
    assert!(e.scroll_up());
    assert!(e.scroll_up());
    assert_eq!(row_strings(&e)[0].0, "a\n");
    assert!(!e.scroll_up());
}

#[test]
fn editor_page_movement() {
    let mut e = Editor::new("a\nb\nc\nd\ne\nf\n");
    e.update_pane_size(80, 2);
    assert!(e.page_down());
    assert_eq!(row_strings(&e)[0].0, "c\n");
    assert!(e.page_up());
    assert_eq!(row_strings(&e)[0].0, "a\n");
}

#[test]
fn width_rule_floors_at_minimum() {
    assert_eq!(editcore::wrap_width_for(0), 40);
    assert_eq!(editcore::wrap_width_for(4), 36);
    assert_eq!(editcore::wrap_width_for(28), 12);
    assert_eq!(editcore::wrap_width_for(36), 12);
}

#[test]
fn editor_typing_inserts_at_cursor() {
    let mut e = Editor::new("ab");
    e.update_pane_size(80, 10);
    assert!(e.insert_char('X'));
    assert_eq!(row_strings(&e), vec![("Xab\n".to_string(), false)]);
    assert_eq!(e.cursor_position(), (1, 0));
    assert!(e.insert_char('Y'));
    assert_eq!(row_strings(&e), vec![("XYab\n".to_string(), false)]);
}

#[test]
fn editor_typing_below_document_materializes_row() {
    // the cursor one row past the last real line: typing materializes the
    // pending terminator plus the char, and the row count grows by one
    let mut e = Editor::new("x");
    e.update_pane_size(80, 10);
    assert!(e.move_cursor_down());
    assert_eq!(e.cursor_position(), (0, 1));
    assert!(e.insert_char('a'));
    assert_eq!(
        row_strings(&e),
        vec![("x\n".to_string(), false), ("a\n".to_string(), false)]
    );
}

#[test]
fn editor_enter_splits_line() {
    let mut e = Editor::new("abcd");
    e.update_pane_size(80, 10);
    assert!(e.move_cursor_right());
    assert!(e.move_cursor_right());
    assert!(e.insert_char('\n'));
    assert_eq!(
        row_strings(&e),
        vec![("ab\n".to_string(), false), ("cd\n".to_string(), false)]
    );
    assert_eq!(e.cursor_position(), (0, 1));
}

#[test]
fn editor_typing_past_line_end_pads_spaces() {
    let mut e = Editor::new("ab");
    e.update_pane_size(80, 10);
    for _ in 0..4 {
        e.move_cursor_right();
    }
    assert!(e.insert_char('z'));
    assert_eq!(row_strings(&e), vec![("ab  z\n".to_string(), false)]);
}

#[test]
fn editor_typing_above_document_materializes_rows() {
    let mut e = Editor::new("ab");
    e.update_pane_size(80, 10);
    assert!(e.move_cursor_up());
    assert!(e.insert_char('q'));
    assert_eq!(
        row_strings(&e),
        vec![("q\n".to_string(), false), ("ab\n".to_string(), false)]
    );
}

#[test]
fn editor_shows_blank_rows_when_scrolled_above() {
    let mut e = Editor::new("ab");
    e.update_pane_size(80, 10);
    assert!(e.move_cursor_up());
    let rows = row_strings(&e);
    assert_eq!(rows.len(), 2);
    assert_eq!(rows[0].0, "");
    assert_eq!(rows[1].0, "ab\n");
}

#[test]
fn editor_declines_space_inside_indentation_padding() {
    let mut e = Editor::new("    ab");
    e.update_pane_size(80, 10);
    assert!(!e.insert_char(' '));
    assert_eq!(row_strings(&e), vec![("    ab\n".to_string(), false)]);
    // a non-space still goes in
    assert!(e.insert_char('x'));
    assert_eq!(row_strings(&e), vec![("x    ab\n".to_string(), false)]);
}

use editcore::buffer::Buffer;
use editcore::ext::{buf_map_get, buf_map_insert, buf_map_new, key_null};
use editcore::ext::{rope_chars_range, rope_from_chars, rope_len};
use editcore::vlines::{VLineCursor, VLines};
use editcore::ext::BufTable;

fn table_with(text: &str, wrap_at: usize) -> (BufTable, slotmap::DefaultKey) {
    let chars: Vec<char> = text.chars().collect();
    let rope = rope_from_chars(&chars);
    let mut bufs = buf_map_new();
    let nullc = VLineCursor::null();
    let bk = buf_map_insert(
        &mut bufs,
        Buffer::new(key_null(), rope, nullc, nullc, wrap_at, 0),
    );
    (bufs, bk)
}

fn rows(v: &VLines, bufs: &BufTable) -> Vec<(String, bool)> {
    let mut out = Vec::new();
    let mut k = v.first();
    loop {
        let line = match v.get(k) {
            Some(l) => *l,
            None => break,
        };
        let b = buf_map_get(bufs, line.buffer_key).unwrap();
        let text: String = rope_chars_range(&b.text, line.start, line.end)
            .into_iter()
            .collect();
        out.push((text, line.continuation));
        k = line.next;
    }
    out
}

#[test]
fn wrap_scenario_overlong_line() {
    // an eleven-char logical line at width five becomes "abcde" (head,
    // wrap-forced) and "fghij\n" (continuation), split exactly at column five
    let (bufs, bk) = table_with("abcdefghij\n", 5);
    let v = VLines::new(&bufs, bk);
    let got = rows(&v, &bufs);
    assert_eq!(
        got,
        vec![
            ("abcde".to_string(), false),
            ("fghij\n".to_string(), true),
        ]
    );
}

#[test]
fn wrap_short_line_single_row() {
    let (bufs, bk) = table_with("hi\n", 5);
    let v = VLines::new(&bufs, bk);
    assert_eq!(rows(&v, &bufs), vec![("hi\n".to_string(), false)]);
}

#[test]
fn wrap_multiple_lines() {
    let (bufs, bk) = table_with("one\ntwo\nthree\n", 5);
    let v = VLines::new(&bufs, bk);
    assert_eq!(
        rows(&v, &bufs),
        vec![
            ("one\n".to_string(), false),
            ("two\n".to_string(), false),
            ("three\n".to_string(), false),
        ]
    );
}

#[test]
fn wrap_exact_width_line() {
    // width five plus the terminator still fits in one row
    let (bufs, bk) = table_with("abcde\n", 5);
    let v = VLines::new(&bufs, bk);
    assert_eq!(rows(&v, &bufs), vec![("abcde\n".to_string(), false)]);
}

#[test]
fn round_trip_reassembles_text() {
    // concatenating all visual-line slices in order reconstructs the text
    let text = "alpha beta gamma delta\nshort\nanother long line here\n";
    let (bufs, bk) = table_with(text, 7);
    let v = VLines::new(&bufs, bk);
    let mut joined = String::new();
    for (t, _) in rows(&v, &bufs) {
        joined.push_str(&t);
    }
    assert_eq!(joined, text);
}

#[test]
fn wrap_invariant_full_rows_before_continuations() {
    // every continuation's preceding fragment is exactly the wrap width
    let text = "abcdefghijklmnopqrstuvwxyz\nxy\n";
    let (bufs, bk) = table_with(text, 6);
    let v = VLines::new(&bufs, bk);
    let got = rows(&v, &bufs);
    for i in 1..got.len() {
        if got[i].1 {
            assert_eq!(got[i - 1].0.chars().count(), 6, "row {} before a continuation", i - 1);
        }
    }
    // and the overlong logical line is wider than the wrap width in total
    let total: usize = got
        .iter()
        .take_while(|(t, _)| !t.ends_with('\n'))
        .map(|(t, _)| t.chars().count())
        .sum();
    assert!(total + 1 > 6);
}

#[test]
fn wrap_idempotent_on_valid_chain() {
    let (bufs, bk) = table_with("abcdefghij\nk\n", 4);
    let mut v = VLines::new(&bufs, bk);
    let before = rows(&v, &bufs);
    let first = v.first();
    let _ = v.wrap(&bufs, first, 4);
    assert_eq!(rows(&v, &bufs), before);
    // re-wrapping any later head changes nothing either
    let last_head = {
        let c = VLineCursor::new(&v, v.first());
        c.peek_next_logical(&v).map(|n| n.head_key())
    };
    if let Some(k) = last_head {
        let _ = v.wrap(&bufs, k, 4);
        assert_eq!(rows(&v, &bufs), before);
    }
}

#[test]
fn insert_overflow_spills_one_row() {
    // typing one char at the end of a full five-char row adds exactly one
    // visual line holding the overflow; no other row's content changes
    let (mut bufs, bk) = table_with("abcde\n", 5);
    let mut v = VLines::new(&bufs, bk);
    let first = v.first();
    let _ = Buffer::insert_char(&mut bufs, &mut v, bk, 5, 'X', first);
    assert_eq!(
        rows(&v, &bufs),
        vec![
            ("abcde".to_string(), false),
            ("X\n".to_string(), true),
        ]
    );
}

#[test]
fn insert_mid_line_shifts_following_rows() {
    let (mut bufs, bk) = table_with("ab\ncd\n", 10);
    let mut v = VLines::new(&bufs, bk);
    let first = v.first();
    let _ = Buffer::insert_char(&mut bufs, &mut v, bk, 1, 'z', first);
    assert_eq!(
        rows(&v, &bufs),
        vec![("azb\n".to_string(), false), ("cd\n".to_string(), false)]
    );
}

#[test]
fn insert_terminator_splits_line() {
    let (mut bufs, bk) = table_with("abcd\n", 10);
    let mut v = VLines::new(&bufs, bk);
    let first = v.first();
    let _ = Buffer::insert_char(&mut bufs, &mut v, bk, 2, '\n', first);
    assert_eq!(
        rows(&v, &bufs),
        vec![("ab\n".to_string(), false), ("cd\n".to_string(), false)]
    );
}

#[test]
fn typing_past_last_line_materializes_terminator() {
    // a cursor one row past the last real line: the pending terminator and
    // the typed char become real text, and the row count grows by one
    let (mut bufs, bk) = table_with("x\n", 5);
    let mut v = VLines::new(&bufs, bk);
    assert_eq!(rows(&v, &bufs).len(), 1);
    let first = v.first();
    let end = {
        let b = buf_map_get(&bufs, bk).unwrap();
        rope_len(&b.text)
    };
    let _ = Buffer::insert_char(&mut bufs, &mut v, bk, end, '\n', first);
    assert_eq!(rows(&v, &bufs).len(), 2);
    // now type the character on the new line, at the correct offset
    let head = {
        let c = VLineCursor::new(&v, v.first());
        c.peek_next_logical(&v).unwrap().head_key()
    };
    let _ = Buffer::insert_char(&mut bufs, &mut v, bk, end, 'a', head);
    assert_eq!(
        rows(&v, &bufs),
        vec![("x\n".to_string(), false), ("a\n".to_string(), false)]
    );
}

#[test]
fn cursor_navigation_walks_rows() {
    let (bufs, bk) = table_with("abcdefghij\nkl\n", 5);
    let v = VLines::new(&bufs, bk);
    let c = VLineCursor::new(&v, v.first());
    let n1 = c.peek_next_visual(&v).unwrap();
    assert_eq!(n1.offset, 1);
    let n2 = n1.peek_next_visual(&v).unwrap();
    assert_eq!(n2.offset, 0);
    assert!(n2.peek_next_visual(&v).is_none());
    let back = n2.peek_prev_visual(&v).unwrap();
    assert_eq!(back.offset, 1);
    let log = c.peek_next_logical(&v).unwrap();
    assert_eq!(log.head_key(), n2.head_key());
    assert!(log.peek_next_logical(&v).is_none());
    assert!(c.peek_prev_logical(&v).is_none());
}

#[test]
fn iterator_walks_whole_chain() {
    let (bufs, bk) = table_with("abcdefghij\nkl\n", 5);
    let v = VLines::new(&bufs, bk);
    let mut it = v.iter(v.first());
    let mut n = 0;
    while let Some((_, line)) = it.next(&v) {
        let b = buf_map_get(&bufs, line.buffer_key).unwrap();
        let t: String = rope_chars_range(&b.text, line.start, line.end)
            .into_iter()
            .collect();
        assert!(!t.is_empty());
        n += 1;
    }
    assert_eq!(n, 3);
}

fn window_over(v: &VLines) -> editcore::window::Window {
    let start = VLineCursor::new(v, v.first());
    editcore::window::Window::new(v, start, VLineCursor::null(), 0)
}

#[test]
fn typing_at_full_row_end_spills_one_row() {
    // scenario: one char typed at the end of a full five-char line makes
    // exactly one new visual line holding the overflow
    let (mut bufs, bk) = table_with("abcde\n", 5);
    let mut v = VLines::new(&bufs, bk);
    let mut w = window_over(&v);
    w.cur_x = 5;
    let changed = w.insert_char(&mut v, &mut bufs, 'X', 10);
    assert!(changed);
    assert_eq!(
        rows(&v, &bufs),
        vec![
            ("abcde".to_string(), false),
            ("X\n".to_string(), true),
        ]
    );
    let _ = bk;
}

#[test]
fn typing_past_last_row_materializes_newline() {
    // scenario: the cursor one row past the last real line; typing a char
    // materializes the pending terminator plus the char, one new row
    let (mut bufs, bk) = table_with("x\n", 5);
    let mut v = VLines::new(&bufs, bk);
    let mut w = window_over(&v);
    w.cursor_idx = 1;
    w.cur_y = 1;
    let before = rows(&v, &bufs).len();
    let changed = w.insert_char(&mut v, &mut bufs, 'a', 10);
    assert!(changed);
    let after = rows(&v, &bufs);
    assert_eq!(after.len(), before + 1);
    assert_eq!(
        after,
        vec![("x\n".to_string(), false), ("a\n".to_string(), false)]
    );
    let _ = bk;
}

#[test]
fn typing_past_line_end_materializes_spaces() {
    let (mut bufs, bk) = table_with("ab\n", 10);
    let mut v = VLines::new(&bufs, bk);
    let mut w = window_over(&v);
    w.cur_x = 4;
    let changed = w.insert_char(&mut v, &mut bufs, 'z', 10);
    assert!(changed);
    assert_eq!(rows(&v, &bufs), vec![("ab  z\n".to_string(), false)]);
    let _ = bk;
}

#[test]
fn typing_a_terminator_splits_the_line() {
    let (mut bufs, bk) = table_with("abcd\n", 10);
    let mut v = VLines::new(&bufs, bk);
    let mut w = window_over(&v);
    w.cur_x = 2;
    let changed = w.insert_char(&mut v, &mut bufs, '\n', 10);
    assert!(changed);
    assert_eq!(
        rows(&v, &bufs),
        vec![("ab\n".to_string(), false), ("cd\n".to_string(), false)]
    );
    assert_eq!(w.cursor_position(), (0, 1));
    let _ = bk;
}

#[test]
fn typing_above_document_materializes_rows() {
    // a cursor scrolled above the document's start: typing turns the
    // virtual rows into real ones, the char on the first of them
    let (mut bufs, bk) = table_with("ab\n", 10);
    let mut v = VLines::new(&bufs, bk);
    let mut w = window_over(&v);
    w.prepend_newlines = 1;
    let changed = w.insert_char(&mut v, &mut bufs, 'q', 10);
    assert!(changed);
    assert_eq!(w.prepend_newlines, 0);
    assert_eq!(
        rows(&v, &bufs),
        vec![("q\n".to_string(), false), ("ab\n".to_string(), false)]
    );
    let _ = bk;
}

#[test]
fn space_inside_indentation_padding_does_not_edit() {
    let (mut bufs, bk) = table_with("    ab\n", 10);
    let mut v = VLines::new(&bufs, bk);
    let mut w = window_over(&v);
    w.cur_x = 2;
    let before = rows(&v, &bufs);
    let changed = w.insert_char(&mut v, &mut bufs, ' ', 10);
    assert!(!changed);
    assert_eq!(rows(&v, &bufs), before);
    // a space in the text proper still goes in
    w.cur_x = 5;
    assert!(w.insert_char(&mut v, &mut bufs, ' ', 10));
    assert_eq!(rows(&v, &bufs), vec![("    a b\n".to_string(), false)]);
    let _ = bk;
}

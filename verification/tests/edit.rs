use desktag::edit::{EditState, MAX_LEN};

#[test]
fn fresh_first_char_replaces_all() {
    let mut e = EditState::new("old");
    e.insert_char('x');
    assert_eq!(e.text(), "x");
}

#[test]
fn fresh_backspace_clears_all() {
    let mut e = EditState::new("old");
    e.backspace();
    assert_eq!(e.text(), "");
}

#[test]
fn typing_appends_after_fresh() {
    let mut e = EditState::new("");
    e.insert_char('a');
    e.insert_char('b');
    assert_eq!(e.text(), "ab");
}

#[test]
fn backspace_removes_last_char() {
    let mut e = EditState::new("");
    e.insert_char('a');
    e.insert_char('b');
    e.backspace();
    assert_eq!(e.text(), "a");
}

#[test]
fn backspace_on_empty_is_noop() {
    let mut e = EditState::new("");
    e.backspace(); // clears fresh
    e.backspace(); // empty, no panic
    assert_eq!(e.text(), "");
}

#[test]
fn respects_max_len() {
    let mut e = EditState::new("");
    for _ in 0..(MAX_LEN + 10) {
        e.insert_char('a');
    }
    assert_eq!(e.text().chars().count(), MAX_LEN);
}

#[test]
fn cyrillic_caret_stays_on_char_boundary() {
    let mut e = EditState::new("");
    e.insert_char('п');
    e.insert_char('р');
    e.insert_char('и');
    assert_eq!(e.text(), "при");
    assert_eq!(e.caret(), "при".len()); // 6 bytes
    e.backspace();
    assert_eq!(e.text(), "пр");
    assert_eq!(e.caret(), "пр".len()); // 4 bytes, on boundary
}

#[test]
fn clear_empties_buffer() {
    let mut e = EditState::new("hello");
    e.insert_char('x'); // fresh-replace -> "x"
    e.clear();
    assert_eq!(e.text(), "");
    assert_eq!(e.caret(), 0);
}

#[test]
fn select_all_then_type_replaces() {
    let mut e = EditState::new("");
    e.insert_char('a');
    e.insert_char('b');
    e.select_all();
    e.insert_char('x');
    assert_eq!(e.text(), "x");
}

#[test]
fn select_all_then_backspace_clears() {
    let mut e = EditState::new("");
    e.insert_char('a');
    e.insert_char('b');
    e.select_all();
    e.backspace();
    assert_eq!(e.text(), "");
}

#[test]
fn is_selected_reflects_fresh() {
    let mut e = EditState::new("abc");
    assert!(e.is_selected()); // fresh on entry
    e.insert_char('x');
    assert!(!e.is_selected()); // cleared after first edit
    e.select_all();
    assert!(e.is_selected()); // re-selected
}

#[test]
fn move_left_collapses_selection_to_start() {
    let mut e = EditState::new("abc"); // fresh, caret at end
    e.move_left();
    assert_eq!(e.caret(), 0);
    assert!(!e.is_selected());
    e.insert_char('x');
    assert_eq!(e.text(), "xabc");
}

#[test]
fn move_right_collapses_selection_to_end() {
    let mut e = EditState::new("abc");
    e.move_right();
    assert_eq!(e.caret(), "abc".len());
    e.insert_char('x');
    assert_eq!(e.text(), "abcx");
}

#[test]
fn mid_edit_insert_and_backspace() {
    let mut e = EditState::new("");
    for c in "abc".chars() {
        e.insert_char(c);
    }
    e.move_left(); // "ab|c"
    e.insert_char('X'); // "abXc"
    assert_eq!(e.text(), "abXc");
    e.backspace(); // remove X
    assert_eq!(e.text(), "abc");
}

#[test]
fn home_end_move_caret() {
    let mut e = EditState::new("");
    for c in "hi".chars() {
        e.insert_char(c);
    }
    e.home();
    assert_eq!(e.caret(), 0);
    e.end();
    assert_eq!(e.caret(), "hi".len());
}

#[test]
fn move_caret_cyrillic_boundaries() {
    let mut e = EditState::new("");
    for c in "абв".chars() {
        e.insert_char(c);
    }
    e.move_left();
    assert_eq!(e.caret(), "аб".len()); // before в
    e.move_left();
    assert_eq!(e.caret(), "а".len());
    e.move_right();
    assert_eq!(e.caret(), "аб".len());
}

// --- further cases ---

#[test]
fn new_puts_caret_after_text_in_bytes() {
    let e = EditState::new("日本🙂");
    assert_eq!(e.caret(), "日本🙂".len());
    assert_eq!(e.text(), "日本🙂");
    assert!(e.is_selected());
}

#[test]
fn backspace_after_insert_restores_text_and_caret() {
    let mut e = EditState::new("ab🙂c");
    e.move_right(); // collapse selection to the end
    e.move_left(); // "ab🙂|c"
    let before_text = e.text().to_string();
    let before_caret = e.caret();
    e.insert_char('é');
    assert_eq!(e.text(), "ab🙂éc");
    e.backspace();
    assert_eq!(e.text(), before_text);
    assert_eq!(e.caret(), before_caret);
}

#[test]
fn caret_walks_over_four_byte_chars() {
    let mut e = EditState::new("a🙂b");
    e.home();
    e.move_right();
    assert_eq!(e.caret(), 1);
    e.move_right();
    assert_eq!(e.caret(), 5);
    e.move_right();
    assert_eq!(e.caret(), 6);
    e.move_right(); // at the end already
    assert_eq!(e.caret(), 6);
    e.move_left();
    e.move_left();
    assert_eq!(e.caret(), 1);
    e.home();
    e.move_left(); // at the start already
    assert_eq!(e.caret(), 0);
    e.backspace(); // nothing before the caret
    assert_eq!(e.text(), "a🙂b");
}

#[test]
fn long_initial_name_blocks_typing_but_not_deleting() {
    let long: String = "z".repeat(MAX_LEN + 5);
    let mut e = EditState::new(&long);
    e.end();
    e.insert_char('!');
    assert_eq!(e.text(), long);
    e.backspace();
    assert_eq!(e.text().chars().count(), MAX_LEN + 4);
}

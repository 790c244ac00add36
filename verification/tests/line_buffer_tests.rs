use line_editor::line_buffer::LineBuffer;

#[test]
fn emoji_test() {
    // a single four-byte emoji is one grapheme cluster
    let mut lb = LineBuffer::new();
    lb.set_buffer(String::from("\u{1F923}"));
    lb.set_insertion_point(0);
    lb.increment_insertion_point();
    assert_eq!(lb.get_insertion_point(), 4);
    lb.decrement_insertion_point();
    assert_eq!(lb.get_insertion_point(), 0);

    // a multi-scalar emoji sequence joined by a zero-width joiner is
    // still one grapheme cluster: the cursor crosses it in one step
    let mut lb2 = LineBuffer::new();
    lb2.set_buffer(String::from("\u{1F647}\u{200D}\u{2640}\u{FE0F}"));
    assert_eq!(lb2.get_buffer_length(), 13);
    lb2.set_insertion_point(0);
    lb2.increment_insertion_point();
    assert_eq!(lb2.get_insertion_point(), 13);
    lb2.decrement_insertion_point();
    assert_eq!(lb2.get_insertion_point(), 0);
}

#[test]
fn grapheme_steps_visit_boundaries() {
    // "a" + combining mark, "e" + combining mark, "x":
    // cluster boundaries at 0, 3 and 6; length 7
    let mut lb = LineBuffer::new();
    lb.set_buffer(String::from("a\u{0310}e\u{0301}x"));
    assert_eq!(lb.get_buffer_length(), 7);
    lb.set_insertion_point(0);
    lb.increment_insertion_point();
    assert_eq!(lb.get_insertion_point(), 3);
    lb.increment_insertion_point();
    assert_eq!(lb.get_insertion_point(), 6);
    lb.increment_insertion_point();
    assert_eq!(lb.get_insertion_point(), 7);
    lb.increment_insertion_point();
    assert_eq!(lb.get_insertion_point(), 7);
    lb.decrement_insertion_point();
    assert_eq!(lb.get_insertion_point(), 6);
    lb.decrement_insertion_point();
    assert_eq!(lb.get_insertion_point(), 3);
    lb.decrement_insertion_point();
    assert_eq!(lb.get_insertion_point(), 0);
    lb.decrement_insertion_point();
    assert_eq!(lb.get_insertion_point(), 0);
}

#[test]
fn word_motion_left() {
    let mut lb = LineBuffer::new();
    lb.set_buffer(String::from("foo bar baz"));
    lb.set_insertion_point(11);
    assert_eq!(lb.move_word_left(), 7);
    assert_eq!(lb.move_word_left(), 3);
    assert_eq!(lb.move_word_left(), 0);
    assert_eq!(lb.move_word_left(), 0);
}

#[test]
fn word_motion_right() {
    let mut lb = LineBuffer::new();
    lb.set_buffer(String::from("foo bar baz"));
    lb.set_insertion_point(0);
    assert_eq!(lb.move_word_right(), 4);
    assert_eq!(lb.move_word_right(), 8);
    assert_eq!(lb.move_word_right(), 11);
    assert_eq!(lb.move_word_right(), 11);
}

#[test]
fn word_motion_tab_separator() {
    let mut lb = LineBuffer::new();
    lb.set_buffer(String::from("a\tb"));
    lb.set_insertion_point(3);
    assert_eq!(lb.move_word_left(), 1);
}

#[test]
fn pop_returns_last_scalar() {
    let mut lb = LineBuffer::new();
    lb.set_buffer(String::from("ab\u{1F923}"));
    assert_eq!(lb.pop(), Some('\u{1F923}'));
    assert_eq!(lb.get_buffer(), "ab");
    assert_eq!(lb.get_insertion_point(), 2);
    assert_eq!(lb.pop(), Some('b'));
    assert_eq!(lb.pop(), Some('a'));
    assert_eq!(lb.pop(), None);
    assert_eq!(lb.get_insertion_point(), 0);
}

#[test]
fn pop_removes_one_scalar_of_a_cluster() {
    // removal works one scalar at a time, so popping a joined emoji
    // sequence peels off its final scalar only
    let mut lb = LineBuffer::new();
    lb.set_buffer(String::from("\u{1F647}\u{200D}\u{2640}\u{FE0F}"));
    assert_eq!(lb.pop(), Some('\u{FE0F}'));
    assert_eq!(lb.get_buffer(), "\u{1F647}\u{200D}\u{2640}");
    assert_eq!(lb.get_insertion_point(), 10);
}

#[test]
fn insert_and_remove_char() {
    let mut lb = LineBuffer::new();
    lb.set_buffer(String::from("ac"));
    lb.insert_char(1, 'b');
    assert_eq!(lb.get_buffer(), "abc");
    lb.insert_char(3, '\u{00E9}');
    assert_eq!(lb.get_buffer(), "abc\u{00E9}");
    lb.remove_char(1);
    assert_eq!(lb.get_buffer(), "ac\u{00E9}");
    lb.remove_char(2);
    assert_eq!(lb.get_buffer(), "ac");
}

#[test]
fn insert_string_at_offset() {
    let mut lb = LineBuffer::new();
    lb.set_buffer(String::from("ad"));
    lb.insert_string(1, "bc");
    assert_eq!(lb.get_buffer(), "abcd");
}

#[test]
fn clear_and_clear_to_end() {
    let mut lb = LineBuffer::new();
    lb.set_buffer(String::from("hello"));
    lb.clear_to_end(3);
    assert_eq!(lb.get_buffer(), "hel");
    lb.clear_buffer();
    assert_eq!(lb.get_buffer(), "");
    assert!(lb.is_empty());
    assert_eq!(lb.get_insertion_point(), 0);
}

#[test]
fn buffer_round_trip_non_ascii() {
    let text = "h\u{00E9}llo \u{1F923}";
    let mut lb = LineBuffer::new();
    lb.set_buffer(String::from(text));
    assert_eq!(lb.get_buffer(), text);
    assert_eq!(lb.get_buffer_length(), text.len());
    let suffix = lb.suffix_bytes(3);
    assert_eq!(suffix, text.as_bytes()[3..].to_vec());
}

#[test]
fn move_to_end_and_set_insertion_point() {
    let mut lb = LineBuffer::new();
    lb.set_buffer(String::from("abc"));
    lb.move_to_end();
    assert_eq!(lb.get_insertion_point(), 3);
    lb.set_insertion_point(1);
    assert_eq!(lb.get_insertion_point(), 1);
}

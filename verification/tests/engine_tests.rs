use line_editor::engine::{EditCommand, Engine};

#[test]
fn insert_advance_composition() {
    let mut engine = Engine::new();
    engine.run_edit_commands(&[EditCommand::InsertChar('a'), EditCommand::MoveRight]);
    assert_eq!(engine.get_buffer(), "a");
    assert_eq!(engine.get_insertion_point(), 1);
}

#[test]
fn backspace_at_start_is_noop() {
    let mut engine = Engine::new();
    engine.set_buffer(String::from("abc"));
    engine.run_edit_commands(&[EditCommand::MoveToStart, EditCommand::Backspace]);
    assert_eq!(engine.get_buffer(), "abc");
    assert_eq!(engine.get_insertion_point(), 0);
}

#[test]
fn backspace_on_empty_buffer_is_noop() {
    let mut engine = Engine::new();
    engine.run_edit_commands(&[EditCommand::Backspace]);
    assert_eq!(engine.get_buffer(), "");
    assert_eq!(engine.get_insertion_point(), 0);
}

#[test]
fn backspace_at_end_pops_last_scalar() {
    let mut engine = Engine::new();
    engine.set_buffer(String::from("ab"));
    engine.run_edit_commands(&[EditCommand::MoveToEnd, EditCommand::Backspace]);
    assert_eq!(engine.get_buffer(), "a");
    assert_eq!(engine.get_insertion_point(), 1);
}

#[test]
fn backspace_in_the_middle() {
    let mut engine = Engine::new();
    engine.set_buffer(String::from("abc"));
    engine.run_edit_commands(&[
        EditCommand::MoveToStart,
        EditCommand::MoveRight,
        EditCommand::Backspace,
    ]);
    assert_eq!(engine.get_buffer(), "bc");
    assert_eq!(engine.get_insertion_point(), 0);
}

#[test]
fn delete_removes_scalar_at_cursor() {
    let mut engine = Engine::new();
    engine.set_buffer(String::from("abc"));
    engine.run_edit_commands(&[EditCommand::MoveToStart, EditCommand::Delete]);
    assert_eq!(engine.get_buffer(), "bc");
    assert_eq!(engine.get_insertion_point(), 0);
    engine.run_edit_commands(&[EditCommand::MoveToEnd, EditCommand::Delete]);
    assert_eq!(engine.get_buffer(), "bc");
}

#[test]
fn kill_ring_round_trip() {
    let mut engine = Engine::new();
    engine.set_buffer(String::from("hello world"));
    engine.set_insertion_point(5);
    engine.run_edit_commands(&[EditCommand::CutToEnd]);
    assert_eq!(engine.get_buffer(), "hello");
    assert_eq!(engine.get_insertion_point(), 5);
    engine.run_edit_commands(&[EditCommand::InsertCutBuffer]);
    assert_eq!(engine.get_buffer(), "hello world");
    assert_eq!(engine.get_insertion_point(), 11);
}

#[test]
fn clear_to_start_combination() {
    let mut engine = Engine::new();
    engine.set_buffer(String::from("hello world"));
    engine.set_insertion_point(5);
    engine.run_edit_commands(&[EditCommand::MoveToStart, EditCommand::CutToEnd]);
    assert_eq!(engine.get_buffer(), "");
    assert_eq!(engine.get_insertion_point(), 0);
    assert!(engine.is_empty());
    engine.run_edit_commands(&[EditCommand::InsertCutBuffer]);
    assert_eq!(engine.get_buffer(), "hello world");
    assert_eq!(engine.get_insertion_point(), 11);
}

#[test]
fn cut_of_empty_tail_keeps_kill_buffer() {
    let mut engine = Engine::new();
    engine.set_buffer(String::from("abc"));
    engine.run_edit_commands(&[EditCommand::MoveToStart, EditCommand::CutToEnd]);
    engine.set_buffer(String::from("xy"));
    engine.run_edit_commands(&[EditCommand::MoveToEnd, EditCommand::CutToEnd]);
    engine.run_edit_commands(&[EditCommand::InsertCutBuffer]);
    assert_eq!(engine.get_buffer(), "xyabc");
}

#[test]
fn word_motion_commands() {
    let mut engine = Engine::new();
    engine.set_buffer(String::from("foo bar baz"));
    engine.run_edit_commands(&[EditCommand::MoveToEnd]);
    assert_eq!(engine.get_insertion_point(), 11);
    engine.run_edit_commands(&[EditCommand::MoveWordLeft]);
    assert_eq!(engine.get_insertion_point(), 7);
    engine.run_edit_commands(&[EditCommand::MoveWordLeft]);
    assert_eq!(engine.get_insertion_point(), 3);
    engine.run_edit_commands(&[EditCommand::MoveWordLeft]);
    assert_eq!(engine.get_insertion_point(), 0);
    engine.run_edit_commands(&[EditCommand::MoveWordRight]);
    assert_eq!(engine.get_insertion_point(), 4);
    engine.run_edit_commands(&[EditCommand::MoveWordRight]);
    assert_eq!(engine.get_insertion_point(), 8);
}

#[test]
fn empty_history_is_noop() {
    let mut engine = Engine::new();
    assert!(!engine.has_history);
    engine.run_edit_commands(&[EditCommand::PreviousHistory]);
    assert_eq!(engine.get_buffer(), "");
    assert_eq!(engine.get_insertion_point(), 0);
    engine.run_edit_commands(&[EditCommand::NextHistory]);
    assert_eq!(engine.get_buffer(), "");
    assert_eq!(engine.get_insertion_point(), 0);
    assert!(!engine.has_history);
}

#[test]
fn history_browsing() {
    let mut engine = Engine::new();
    engine.set_buffer(String::from("one"));
    engine.run_edit_commands(&[EditCommand::AppendToHistory, EditCommand::Clear]);
    engine.set_buffer(String::from("two"));
    engine.run_edit_commands(&[EditCommand::AppendToHistory, EditCommand::Clear]);
    assert!(engine.has_history);
    engine.run_edit_commands(&[EditCommand::PreviousHistory]);
    assert_eq!(engine.get_buffer(), "two");
    assert_eq!(engine.get_insertion_point(), 3);
    engine.run_edit_commands(&[EditCommand::PreviousHistory]);
    assert_eq!(engine.get_buffer(), "one");
    engine.run_edit_commands(&[EditCommand::PreviousHistory]);
    assert_eq!(engine.get_buffer(), "one");
    engine.run_edit_commands(&[EditCommand::NextHistory]);
    assert_eq!(engine.get_buffer(), "two");
    engine.run_edit_commands(&[EditCommand::NextHistory]);
    assert_eq!(engine.get_buffer(), "");
    assert_eq!(engine.get_insertion_point(), 0);
    engine.run_edit_commands(&[EditCommand::NextHistory]);
    assert_eq!(engine.get_buffer(), "");
}

#[test]
fn history_bound() {
    let mut engine = Engine::new();
    for i in 0..150 {
        engine.set_buffer(format!("line{}", i));
        engine.run_edit_commands(&[EditCommand::AppendToHistory, EditCommand::Clear]);
    }
    // the hundred most recent lines remain, most recent first
    for i in 0..100 {
        engine.run_edit_commands(&[EditCommand::PreviousHistory]);
        assert_eq!(engine.get_buffer(), format!("line{}", 149 - i));
    }
    // the older fifty lines were evicted: browsing stops at the oldest
    engine.run_edit_commands(&[EditCommand::PreviousHistory]);
    assert_eq!(engine.get_buffer(), "line50");
}

#[test]
fn append_of_empty_line_is_noop() {
    let mut engine = Engine::new();
    engine.run_edit_commands(&[EditCommand::AppendToHistory]);
    assert!(!engine.has_history);
    engine.run_edit_commands(&[EditCommand::PreviousHistory]);
    assert_eq!(engine.get_buffer(), "");
}

#[test]
fn byte_addressed_primitives() {
    let mut engine = Engine::new();
    engine.set_buffer(String::from("ac"));
    engine.run_edit_commands(&[EditCommand::MoveToStart]);
    engine.insert_char(1, 'b');
    assert_eq!(engine.get_buffer(), "abc");
    engine.insert_string(3, "de");
    assert_eq!(engine.get_buffer(), "abcde");
    engine.remove_char(0);
    assert_eq!(engine.get_buffer(), "bcde");
    engine.clear_to_end(2);
    assert_eq!(engine.get_buffer(), "bc");
    assert_eq!(engine.get_buffer_length(), 2);
    assert_eq!(engine.pop(), Some('c'));
    assert_eq!(engine.get_buffer(), "b");
    engine.clear_buffer();
    assert!(engine.is_empty());
}

#[test]
fn cursor_stepping_over_emoji() {
    let mut engine = Engine::new();
    engine.set_buffer(String::from("a\u{1F923}b"));
    engine.run_edit_commands(&[
        EditCommand::MoveToStart,
        EditCommand::MoveRight,
        EditCommand::MoveRight,
    ]);
    assert_eq!(engine.get_insertion_point(), 5);
    engine.run_edit_commands(&[EditCommand::MoveLeft]);
    assert_eq!(engine.get_insertion_point(), 1);
    engine.decrement_insertion_point();
    assert_eq!(engine.get_insertion_point(), 0);
    engine.increment_insertion_point();
    assert_eq!(engine.get_insertion_point(), 1);
    engine.move_to_end();
    assert_eq!(engine.get_insertion_point(), 6);
    engine.run_edit_commands(&[EditCommand::MoveToStart]);
    engine.clear();
    assert_eq!(engine.get_buffer(), "");
}

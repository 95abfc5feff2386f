use rmde_core::{Document, DocumentId, Error, IoErrorKind, Selection};

fn doc() -> Document {
    Document::new(DocumentId::from_u64(1))
}

fn doc_with(text: &str) -> Document {
    let mut d = doc();
    d.insert(text);
    d
}

fn sorted_and_apart(sels: &[Selection]) -> bool {
    !sels.is_empty() && sels.windows(2).all(|w| w[0].end() < w[1].start())
}

#[test]
fn test_new_document() {
    let doc = doc();
    assert!(doc.is_empty());
    assert!(!doc.is_dirty());
    assert_eq!(doc.title(), "Untitled");
}

#[test]
fn test_insert() {
    let mut doc = doc();
    doc.insert("Hello");
    assert_eq!(doc.content(), "Hello");
    assert!(doc.is_dirty());

    doc.insert(" World");
    assert_eq!(doc.content(), "Hello World");
}

#[test]
fn test_delete_backward() {
    let mut doc = doc();
    doc.insert("Hello");
    doc.delete_backward();
    assert_eq!(doc.content(), "Hell");
}

#[test]
fn test_multi_cursor_insert() {
    let mut doc = doc();
    doc.insert("ab");
    doc.set_cursor(1); // between a and b
    doc.add_cursor(2); // after b

    doc.insert("X");
    assert_eq!(doc.content(), "aXbX");
}

#[test]
fn test_select_all() {
    let mut doc = doc();
    doc.insert("Hello World");
    doc.select_all();
    assert_eq!(doc.selected_text(), Some("Hello World".to_string()));
}

#[test]
fn test_new_document_has_cursor_at_zero() {
    let doc = doc();
    assert_eq!(doc.selections(), &vec![Selection::cursor(0)]);
    assert_eq!(*doc.primary_selection(), Selection::cursor(0));
    assert_eq!(doc.len(), 0);
    assert_eq!(doc.id(), DocumentId::from_u64(1));
    assert!(doc.path().is_none());
}

#[test]
fn test_insert_empty_is_noop() {
    let mut doc = doc();
    doc.insert("");
    assert_eq!(doc.content(), "");
    assert!(!doc.is_dirty());
    assert_eq!(doc.selections(), &vec![Selection::cursor(0)]);
}

#[test]
fn test_insert_moves_cursor_by_byte_length() {
    let mut doc = doc();
    doc.insert("h\u{e9}llo");
    assert_eq!(doc.len(), 6);
    assert_eq!(doc.selections(), &vec![Selection::cursor(6)]);
}

#[test]
fn test_insert_replaces_selected_range() {
    let mut doc = doc_with("Hello World");
    doc.selections_mut().clear();
    doc.selections_mut().push(Selection::new(11, 6));
    doc.insert("There");
    assert_eq!(doc.content(), "Hello There");
    assert_eq!(doc.selections(), &vec![Selection::cursor(11)]);
}

#[test]
fn test_insert_cursors_are_limited_to_new_text() {
    let mut doc = doc_with("0123456789");
    doc.selections_mut().clear();
    doc.selections_mut().push(Selection::new(0, 2));
    doc.selections_mut().push(Selection::new(5, 10));
    doc.insert("X");
    assert_eq!(doc.content(), "X234X");
    assert_eq!(doc.selections(), &vec![Selection::cursor(1), Selection::cursor(5)]);
}

#[test]
fn test_insert_after_raw_selection_change_normalizes_first() {
    let mut doc = doc_with("abcdef");
    doc.selections_mut().clear();
    doc.selections_mut().push(Selection::new(3, 5));
    doc.selections_mut().push(Selection::new(0, 4));
    doc.selections_mut().push(Selection::cursor(99));
    doc.insert("-");
    assert_eq!(doc.content(), "-f-");
    assert!(sorted_and_apart(doc.selections()));
}

#[test]
fn test_backspace_on_empty_buffer_is_noop() {
    let mut doc = doc();
    doc.delete_backward();
    assert_eq!(doc.content(), "");
    assert_eq!(doc.selections(), &vec![Selection::cursor(0)]);
    assert!(!doc.is_dirty());
}

#[test]
fn test_backspace_at_start_of_saved_text_keeps_it_clean() {
    let mut doc = Document::open(DocumentId::from_u64(3), "/tmp/a.txt", "abc");
    doc.delete_backward();
    assert_eq!(doc.content(), "abc");
    assert!(!doc.is_dirty());
    doc.set_cursor(1);
    doc.delete_backward();
    assert_eq!(doc.content(), "bc");
    assert!(doc.is_dirty());
}

#[test]
fn test_delete_forward_at_end_keeps_document_clean() {
    let mut doc = Document::open(DocumentId::from_u64(3), "/tmp/a.txt", "abc");
    doc.set_cursor(3);
    doc.delete_forward();
    assert_eq!(doc.content(), "abc");
    assert_eq!(doc.selections(), &vec![Selection::cursor(3)]);
    assert!(!doc.is_dirty());
    doc.set_cursor(2);
    doc.delete_forward();
    assert_eq!(doc.content(), "ab");
    assert!(doc.is_dirty());
}

#[test]
fn test_delete_that_removes_nothing_keeps_unsaved_changes() {
    let mut doc = doc_with("abc");
    assert!(doc.is_dirty());
    doc.delete_forward();
    assert_eq!(doc.content(), "abc");
    assert!(doc.is_dirty());
    doc.set_cursor(0);
    doc.delete_backward();
    assert!(doc.is_dirty());
}

#[test]
fn test_delete_of_selection_inside_one_character_removes_nothing() {
    let mut doc = Document::open(DocumentId::from_u64(3), "/tmp/a.txt", "\u{20ac}");
    doc.selections_mut().clear();
    doc.selections_mut().push(Selection::new(1, 2));
    doc.delete_backward();
    assert_eq!(doc.content(), "\u{20ac}");
    assert!(!doc.is_dirty());
}

#[test]
fn test_delete_backward_removes_whole_codepoint() {
    let mut doc = doc_with("a\u{20ac}");
    assert_eq!(doc.len(), 4);
    doc.delete_backward();
    assert_eq!(doc.content(), "a");
    assert_eq!(doc.selections(), &vec![Selection::cursor(1)]);
}

#[test]
fn test_delete_backward_leaves_combining_sequence_partly() {
    let mut doc = doc_with("e\u{301}");
    doc.delete_backward();
    assert_eq!(doc.content(), "e");
}

#[test]
fn test_delete_backward_range_collapses_to_start() {
    let mut doc = doc_with("Hello World");
    doc.selections_mut().clear();
    doc.selections_mut().push(Selection::new(5, 11));
    doc.delete_backward();
    assert_eq!(doc.content(), "Hello");
    assert_eq!(doc.selections(), &vec![Selection::cursor(5)]);
    assert!(doc.is_dirty());
}

#[test]
fn test_delete_backward_multi_cursor() {
    let mut doc = doc_with("abcd");
    doc.set_cursor(2);
    doc.add_cursor(4);
    doc.delete_backward();
    assert_eq!(doc.content(), "ac");
    assert_eq!(doc.selections(), &vec![Selection::cursor(1), Selection::cursor(2)]);
}

#[test]
fn test_delete_forward_cursor_and_end_of_buffer() {
    let mut doc = doc_with("ab\u{e9}");
    doc.set_cursor(2);
    doc.delete_forward();
    assert_eq!(doc.content(), "ab");
    assert_eq!(doc.selections(), &vec![Selection::cursor(2)]);
    doc.delete_forward();
    assert_eq!(doc.content(), "ab");
}

#[test]
fn test_delete_forward_range() {
    let mut doc = doc_with("Hello World");
    doc.selections_mut().clear();
    doc.selections_mut().push(Selection::new(0, 6));
    doc.delete_forward();
    assert_eq!(doc.content(), "World");
    assert_eq!(doc.selections(), &vec![Selection::cursor(0)]);
}

#[test]
fn test_set_cursor_clamps() {
    let mut doc = doc_with("abc");
    doc.set_cursor(100);
    assert_eq!(doc.selections(), &vec![Selection::cursor(3)]);
}

#[test]
fn test_add_cursor_ignores_duplicate_and_clamps() {
    let mut doc = doc_with("abc");
    doc.set_cursor(1);
    doc.add_cursor(1);
    assert_eq!(doc.selections(), &vec![Selection::cursor(1)]);
    doc.add_cursor(50);
    assert_eq!(doc.selections(), &vec![Selection::cursor(1), Selection::cursor(3)]);
    doc.add_cursor(0);
    assert_eq!(
        doc.selections(),
        &vec![Selection::cursor(0), Selection::cursor(1), Selection::cursor(3)]
    );
}

#[test]
fn test_move_cursors_merges_crossing_selections() {
    let mut doc = doc_with("abcdef");
    doc.set_cursor(0);
    doc.add_cursor(1);
    doc.move_cursors(-3, false);
    assert_eq!(doc.selections(), &vec![Selection::cursor(0)]);
    doc.move_cursors(2, true);
    assert_eq!(doc.selections(), &vec![Selection::new(0, 2)]);
    doc.move_cursors(100, false);
    assert_eq!(doc.selections(), &vec![Selection::cursor(6)]);
}

#[test]
fn test_select_all_on_empty_document_selects_nothing() {
    let mut doc = doc();
    doc.select_all();
    assert_eq!(doc.selections(), &vec![Selection::new(0, 0)]);
    assert_eq!(doc.selected_text(), None);
}

#[test]
fn test_selected_text_of_cursor_is_none() {
    let doc = doc_with("abc");
    assert_eq!(doc.selected_text(), None);
}

#[test]
fn test_selected_text_multibyte() {
    let mut doc = doc_with("a\u{e9}\u{20ac}z");
    doc.selections_mut().clear();
    doc.selections_mut().push(Selection::new(6, 1));
    assert_eq!(doc.selected_text(), Some("\u{e9}\u{20ac}".to_string()));
}

#[test]
fn test_search_and_add() {
    let mut doc = doc_with("cat dog cat");
    doc.selections_mut().clear();
    doc.selections_mut().push(Selection::new(0, 3));
    doc.select_next_occurrence("cat");
    assert_eq!(doc.selections(), &vec![Selection::new(0, 3), Selection::new(8, 11)]);
    doc.select_next_occurrence("cat");
    assert_eq!(doc.selections(), &vec![Selection::new(0, 3), Selection::new(8, 11)]);
    assert_eq!(doc.content(), "cat dog cat");
}

#[test]
fn test_select_next_occurrence_empty_or_missing_is_noop() {
    let mut doc = doc_with("cat dog cat");
    doc.set_cursor(0);
    doc.select_next_occurrence("");
    assert_eq!(doc.selections(), &vec![Selection::cursor(0)]);
    doc.select_next_occurrence("bird");
    assert_eq!(doc.selections(), &vec![Selection::cursor(0)]);
}

#[test]
fn test_select_next_occurrence_wraps_before_start() {
    let mut doc = doc_with("one two");
    assert_eq!(doc.selections(), &vec![Selection::cursor(7)]);
    doc.select_next_occurrence("one");
    assert_eq!(doc.selections(), &vec![Selection::new(0, 3), Selection::cursor(7)]);
}

#[test]
fn test_select_next_occurrence_multibyte_offsets() {
    let mut doc = doc_with("\u{e9}x \u{e9}x");
    doc.set_cursor(0);
    doc.select_next_occurrence("\u{e9}x");
    assert_eq!(doc.selections(), &vec![Selection::new(0, 3)]);
    doc.select_next_occurrence("\u{e9}x");
    assert_eq!(doc.selections(), &vec![Selection::new(0, 3), Selection::new(4, 7)]);
}

#[test]
fn test_invariant_after_mixed_operations() {
    let mut doc = doc_with("the quick brown fox");
    doc.set_cursor(4);
    doc.add_cursor(10);
    doc.add_cursor(16);
    assert!(sorted_and_apart(doc.selections()));
    doc.move_cursors(3, true);
    assert!(sorted_and_apart(doc.selections()));
    doc.insert("__");
    assert!(sorted_and_apart(doc.selections()));
    doc.delete_backward();
    assert!(sorted_and_apart(doc.selections()));
    doc.delete_forward();
    assert!(sorted_and_apart(doc.selections()));
    doc.select_next_occurrence("o");
    assert!(sorted_and_apart(doc.selections()));
    let len = doc.len();
    assert!(doc.selections().iter().all(|s| s.end() <= len));
}

#[test]
fn test_lines() {
    let doc = doc_with("one\ntwo\nthree");
    assert_eq!(doc.line_count(), 3);
    assert_eq!(doc.line(0), Some("one\n".to_string()));
    assert_eq!(doc.line(2), Some("three".to_string()));
    assert_eq!(doc.line(3), None);
    assert_eq!(Document::new(DocumentId::from_u64(2)).line_count(), 1);
}

#[test]
fn test_open_holds_content_and_title() {
    let doc = Document::open(DocumentId::from_u64(9), "/tmp/notes/todo.md", "# Todo\n");
    assert_eq!(doc.content(), "# Todo\n");
    assert!(!doc.is_dirty());
    assert_eq!(doc.title(), "todo.md");
    assert_eq!(doc.path().map(|p| p.as_str()), Some("/tmp/notes/todo.md"));
    assert_eq!(doc.selections(), &vec![Selection::cursor(0)]);
}

#[test]
fn test_save_without_path_fails() {
    let doc = doc_with("abc");
    match doc.save() {
        Err(Error::Io(kind, message)) => {
            assert_eq!(kind, IoErrorKind::NotFound);
            assert_eq!(message, "No file path set");
        }
        other => panic!("unexpected: {:?}", other),
    }
}

#[test]
fn test_save_round_trip_through_requests() {
    let mut doc = doc_with("hello");
    let write = doc.save_as("/tmp/a.txt");
    assert_eq!(write.path, "/tmp/a.txt");
    assert_eq!(write.content, "hello");
    doc.mark_saved_as(&write.path);
    assert!(!doc.is_dirty());
    let reopened = Document::open(DocumentId::from_u64(2), &write.path, &write.content);
    assert_eq!(reopened.content(), doc.content());
    assert!(!reopened.is_dirty());

    doc.insert("!");
    assert!(doc.is_dirty());
    let again = doc.save().unwrap();
    assert_eq!(again.path, "/tmp/a.txt");
    assert_eq!(again.content, "hello!");
    doc.mark_saved();
    assert!(!doc.is_dirty());
}

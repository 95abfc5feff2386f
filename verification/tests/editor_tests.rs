use rmde_core::{Document, DocumentId, Editor, Error, HighlightKind, IdGenerator, Selection};

#[test]
fn test_new_editor() {
    let editor = Editor::new();
    assert_eq!(editor.tab_count(), 1);
    assert!(editor.active().is_some());
}

#[test]
fn test_new_tab() {
    let mut editor = Editor::new();
    let id = editor.new_tab();
    assert_eq!(editor.tab_count(), 2);
    assert_eq!(editor.active_id(), Some(id));
}

#[test]
fn test_close_tab() {
    let mut editor = Editor::new();
    let id1 = editor.active_id().unwrap();
    let id2 = editor.new_tab();

    assert_eq!(editor.tab_count(), 2);
    editor.close_tab(id2);
    assert_eq!(editor.tab_count(), 1);
    assert_eq!(editor.active_id(), Some(id1));
}

#[test]
fn test_close_last_tab() {
    let mut editor = Editor::new();
    let id = editor.active_id().unwrap();

    editor.close_tab(id);
    // Should have a new empty document
    assert_eq!(editor.tab_count(), 1);
    assert!(editor.active().is_some());
}

#[test]
fn test_switch_tab() {
    let mut editor = Editor::new();
    let id1 = editor.active_id().unwrap();
    let id2 = editor.new_tab();

    assert_eq!(editor.active_id(), Some(id2));
    editor.switch_tab(id1);
    assert_eq!(editor.active_id(), Some(id1));
}

#[test]
fn test_next_prev_tab() {
    let mut editor = Editor::new();
    let id1 = editor.active_id().unwrap();
    let id2 = editor.new_tab();
    let _id3 = editor.new_tab();

    editor.switch_tab(id1);
    editor.next_tab();
    assert_eq!(editor.active_id(), Some(id2));

    editor.prev_tab();
    assert_eq!(editor.active_id(), Some(id1));
}

#[test]
fn test_document_id_unique() {
    let mut ids = IdGenerator::new();
    let id1 = DocumentId::new(&mut ids);
    let id2 = DocumentId::new(&mut ids);
    assert_ne!(id1, id2);
}

#[test]
fn test_document_ids_count_up_from_one() {
    let mut ids = IdGenerator::new();
    assert_eq!(DocumentId::new(&mut ids).as_u64(), 1);
    assert_eq!(DocumentId::new(&mut ids).as_u64(), 2);
    assert_eq!(DocumentId::from_u64(17).as_u64(), 17);
}

#[test]
fn test_closing_only_tab_leaves_blank_clean_document() {
    let mut editor = Editor::new();
    editor.insert("some text").unwrap();
    let id = editor.active_id().unwrap();
    assert!(editor.close_tab(id));
    assert_eq!(editor.tab_count(), 1);
    let doc = editor.active().unwrap();
    assert!(doc.is_empty());
    assert!(!doc.is_dirty());
    assert_ne!(doc.id(), id);
}

#[test]
fn test_close_unknown_tab_reports_failure() {
    let mut editor = Editor::new();
    assert!(!editor.close_tab(DocumentId::from_u64(999)));
    assert_eq!(editor.tab_count(), 1);
    assert!(!editor.switch_tab(DocumentId::from_u64(999)));
}

#[test]
fn test_close_tab_before_active_shifts_active_index() {
    let mut editor = Editor::new();
    let id1 = editor.active_id().unwrap();
    let _id2 = editor.new_tab();
    let id3 = editor.new_tab();
    assert!(editor.close_tab(id1));
    assert_eq!(editor.tab_count(), 2);
    assert_eq!(editor.active_id(), Some(id3));
}

#[test]
fn test_close_active_middle_tab_activates_next() {
    let mut editor = Editor::new();
    let _id1 = editor.active_id().unwrap();
    let id2 = editor.new_tab();
    let id3 = editor.new_tab();
    editor.switch_tab(id2);
    assert!(editor.close_tab(id2));
    assert_eq!(editor.active_id(), Some(id3));
}

#[test]
fn test_next_prev_wrap_around() {
    let mut editor = Editor::new();
    let id1 = editor.active_id().unwrap();
    let _id2 = editor.new_tab();
    let id3 = editor.new_tab();
    editor.next_tab();
    assert_eq!(editor.active_id(), Some(id1));
    editor.prev_tab();
    assert_eq!(editor.active_id(), Some(id3));
}

#[test]
fn test_tabs_snapshot() {
    let mut editor = Editor::new();
    editor.insert("x").unwrap();
    let id2 = editor.open_file_with("/work/readme.md", "hi");
    let tabs = editor.tabs();
    assert_eq!(tabs.len(), 2);
    assert_eq!(tabs[0].id, 1);
    assert_eq!(tabs[0].title, "Untitled");
    assert!(tabs[0].dirty);
    assert_eq!(tabs[1].id, id2.as_u64());
    assert_eq!(tabs[1].title, "readme.md");
    assert!(!tabs[1].dirty);
}

#[test]
fn test_open_file_activates_already_open_document() {
    let mut editor = Editor::new();
    assert_eq!(editor.open_file("/work/a.txt"), None);
    let a = editor.open_file_with("/work/a.txt", "alpha");
    let b = editor.open_file_with("/work/b.txt", "beta");
    assert_eq!(editor.active_id(), Some(b));
    assert_eq!(editor.open_file("/work/a.txt"), Some(a));
    assert_eq!(editor.active_id(), Some(a));
    assert_eq!(editor.tab_count(), 3);
    assert_eq!(editor.content().unwrap(), "alpha");
    assert_eq!(editor.open_file("/work/c.txt"), None);
    assert_eq!(editor.active_id(), Some(a));
}

#[test]
fn test_open_file_finds_open_document_under_another_spelling() {
    let mut editor = Editor::new();
    let a = editor.open_file_with("dir//a.txt", "alpha");
    let _b = editor.open_file_with("dir/b.txt", "beta");
    assert_eq!(editor.open_file("dir/a.txt"), Some(a));
    assert_eq!(editor.active_id(), Some(a));
    assert_eq!(editor.tab_count(), 3);
    assert_eq!(editor.content().unwrap(), "alpha");
    assert!(!editor.active().unwrap().is_dirty());
    assert_eq!(editor.open_file("dir/./a.txt"), Some(a));
    assert_eq!(editor.open_file("dir/a.txt/"), Some(a));
    assert_eq!(editor.open_file("dir/A.txt"), None);
    assert_eq!(editor.open_file("other/a.txt"), None);
}

#[test]
fn test_editor_backspace_on_new_document_keeps_it_clean() {
    let mut editor = Editor::new();
    editor.delete_backward().unwrap();
    editor.delete_forward().unwrap();
    assert!(!editor.active().unwrap().is_dirty());
    assert!(!editor.tabs()[0].dirty);
}

#[test]
fn test_editing_goes_to_active_document() {
    let mut editor = Editor::new();
    let first = editor.active_id().unwrap();
    editor.insert("ab").unwrap();
    editor.set_cursor(1).unwrap();
    editor.add_cursor(2).unwrap();
    editor.insert("X").unwrap();
    assert_eq!(editor.content().unwrap(), "aXbX");
    let second = editor.new_tab();
    editor.insert("other").unwrap();
    editor.delete_backward().unwrap();
    editor.set_cursor(0).unwrap();
    editor.delete_forward().unwrap();
    assert_eq!(editor.content().unwrap(), "the");
    editor.select_all().unwrap();
    assert_eq!(editor.selections().unwrap(), vec![Selection::new(0, 3)]);
    editor.move_cursors(-1, false).unwrap();
    assert_eq!(editor.selections().unwrap(), vec![Selection::cursor(2)]);
    editor.select_next_occurrence("t").unwrap();
    assert_eq!(editor.selections().unwrap(), vec![Selection::new(0, 1), Selection::cursor(2)]);
    editor.switch_tab(first);
    assert_eq!(editor.content().unwrap(), "aXbX");
    assert_eq!(editor.active_id(), Some(first));
    assert_ne!(first, second);
}

#[test]
fn test_editor_save_flow() {
    let mut editor = Editor::new();
    editor.insert("text").unwrap();
    assert!(matches!(editor.save(), Err(Error::Io(_, _))));
    let write = editor.save_as("/tmp/out.txt").unwrap();
    assert_eq!(write.content, "text");
    editor.mark_saved_as(&write.path).unwrap();
    assert!(!editor.active().unwrap().is_dirty());
    assert_eq!(editor.active().unwrap().title(), "out.txt");
    editor.insert("!").unwrap();
    let again = editor.save().unwrap();
    assert_eq!(again.path, "/tmp/out.txt");
    assert_eq!(again.content, "text!");
    editor.mark_saved().unwrap();
    assert!(!editor.active().unwrap().is_dirty());
}

#[test]
fn test_active_mut_reaches_active_document() {
    let mut editor = Editor::default();
    editor.active_mut().unwrap().insert("via reference");
    assert_eq!(editor.content().unwrap(), "via reference");
    let doc: &Document = editor.active().unwrap();
    assert!(doc.is_dirty());
}

#[test]
fn test_highlight_kind_codes() {
    assert_eq!(HighlightKind::Heading1.code(), 1);
    assert_eq!(HighlightKind::Heading6.code(), 6);
    assert_eq!(HighlightKind::Bold.code(), 10);
    assert_eq!(HighlightKind::Italic.code(), 11);
    assert_eq!(HighlightKind::Code.code(), 20);
    assert_eq!(HighlightKind::CodeBlock.code(), 21);
    assert_eq!(HighlightKind::Link.code(), 30);
    assert_eq!(HighlightKind::LinkUrl.code(), 31);
    assert_eq!(HighlightKind::ListMarker.code(), 40);
    assert_eq!(HighlightKind::BlockQuote.code(), 50);
}

use mdviewer::json::{JsonViewState, NavItem};

fn nav(items: &[(usize, &str)]) -> Vec<NavItem> {
    items.iter().map(|(l, p)| NavItem { line_index: *l, path: p.to_string() }).collect()
}

#[test]
fn new_state_is_empty() {
    let s = JsonViewState::new();
    assert!(s.expanded.is_empty());
    assert_eq!(s.cursor, 0);
    assert_eq!(s.cursor_line(), None);
    assert_eq!(s.cursor_path(), None);
}

#[test]
fn toggle_expands_then_collapses() {
    let mut s = JsonViewState::new();
    s.navigable = nav(&[(3, "a"), (7, "a.b")]);
    s.toggle_current();
    assert_eq!(s.expanded, vec!["a".to_string()]);
    assert_eq!(s.cursor_path_save, Some("a".to_string()));
    s.cursor = 1;
    s.toggle_current();
    assert_eq!(s.expanded.len(), 2);
    s.cursor = 0;
    s.toggle_current();
    assert_eq!(s.expanded, vec!["a.b".to_string()]);
}

#[test]
fn toggle_beyond_the_items_does_nothing() {
    let mut s = JsonViewState::new();
    s.toggle_current();
    assert!(s.expanded.is_empty());
    assert_eq!(s.cursor_path_save, None);
}

#[test]
fn cursor_moves_and_clamps() {
    let mut s = JsonViewState::new();
    s.move_cursor(3);
    assert_eq!(s.cursor, 0);
    s.navigable = nav(&[(3, "a"), (7, "a.b"), (9, "c")]);
    s.move_cursor(1);
    assert_eq!(s.cursor_line(), Some(7));
    assert_eq!(s.cursor_path(), Some("a.b"));
    s.move_cursor(10);
    assert_eq!(s.cursor, 2);
    s.move_cursor(-10);
    assert_eq!(s.cursor, 0);
}

#[test]
fn restore_finds_the_saved_path_or_clamps() {
    let mut s = JsonViewState::new();
    s.navigable = nav(&[(3, "a"), (7, "a.b"), (9, "c")]);
    s.cursor_path_save = Some("c".to_string());
    s.restore_cursor();
    assert_eq!(s.cursor, 2);
    assert_eq!(s.cursor_path_save, None);
    s.navigable = nav(&[(1, "x")]);
    s.cursor_path_save = Some("gone".to_string());
    s.restore_cursor();
    assert_eq!(s.cursor, 0);
    s.cursor = 0;
    s.restore_cursor();
    assert_eq!(s.cursor, 0);
    s.navigable = Vec::new();
    s.cursor = 4;
    s.restore_cursor();
    assert_eq!(s.cursor, 0);
}

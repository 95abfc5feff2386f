use rmde_core::selection_set::{clamp_selections, merge_selections, normalize, sort_selections};
use rmde_core::Selection;

#[test]
fn test_cursor() {
    let sel = Selection::cursor(5);
    assert!(sel.is_cursor());
    assert_eq!(sel.start(), 5);
    assert_eq!(sel.end(), 5);
    assert_eq!(sel.len(), 0);
}

#[test]
fn test_selection() {
    let sel = Selection::new(5, 10);
    assert!(!sel.is_cursor());
    assert_eq!(sel.start(), 5);
    assert_eq!(sel.end(), 10);
    assert_eq!(sel.len(), 5);
}

#[test]
fn test_reverse_selection() {
    let sel = Selection::new(10, 5);
    assert_eq!(sel.start(), 5);
    assert_eq!(sel.end(), 10);
    assert_eq!(sel.len(), 5);
}

#[test]
fn test_contains() {
    let sel = Selection::new(5, 10);
    assert!(!sel.contains(4));
    assert!(sel.contains(5));
    assert!(sel.contains(7));
    assert!(!sel.contains(10));
}

#[test]
fn test_move_by() {
    let mut sel = Selection::cursor(5);
    sel.move_by(3, 100, false);
    assert_eq!(sel.head, 8);
    assert_eq!(sel.anchor, 8);

    sel.move_by(-2, 100, true);
    assert_eq!(sel.head, 6);
    assert_eq!(sel.anchor, 8);
}

#[test]
fn test_is_empty_matches_is_cursor() {
    assert!(Selection::cursor(3).is_empty());
    assert!(!Selection::new(3, 4).is_empty());
}

#[test]
fn test_default_selection_is_cursor_at_zero() {
    assert_eq!(Selection::default(), Selection::cursor(0));
}

#[test]
fn test_move_by_saturates_at_zero() {
    let mut sel = Selection::cursor(2);
    sel.move_by(-5, 100, false);
    assert_eq!(sel, Selection::cursor(0));
}

#[test]
fn test_move_by_clamps_to_max() {
    let mut sel = Selection::cursor(8);
    sel.move_by(5, 10, false);
    assert_eq!(sel, Selection::cursor(10));
}

#[test]
fn test_move_by_extreme_deltas() {
    let mut sel = Selection::cursor(7);
    sel.move_by(isize::MIN, 10, false);
    assert_eq!(sel, Selection::cursor(0));
    sel.move_by(isize::MAX, 10, true);
    assert_eq!(sel, Selection::new(0, 10));
    let mut far = Selection::cursor(usize::MAX);
    far.move_by(isize::MAX, usize::MAX, false);
    assert_eq!(far, Selection::cursor(usize::MAX));
}

#[test]
fn test_move_by_back_from_beyond_max_lands_within() {
    let mut sel = Selection::cursor(50);
    sel.move_by(-1, 10, false);
    assert_eq!(sel, Selection::cursor(10));
}

#[test]
fn test_collapse_variants() {
    let mut a = Selection::new(3, 9);
    a.collapse();
    assert_eq!(a, Selection::cursor(9));
    let mut b = Selection::new(9, 3);
    b.collapse_to_start();
    assert_eq!(b, Selection::cursor(3));
    let mut c = Selection::new(9, 3);
    c.collapse_to_end();
    assert_eq!(c, Selection::cursor(9));
}

#[test]
fn test_merge_law_either_order() {
    let mut first = vec![Selection::new(0, 5), Selection::new(3, 8)];
    normalize(&mut first);
    assert_eq!(first, vec![Selection::new(0, 8)]);
    let mut second = vec![Selection::new(3, 8), Selection::new(0, 5)];
    normalize(&mut second);
    assert_eq!(second, vec![Selection::new(0, 8)]);
}

#[test]
fn test_normalize_empty_installs_default_cursor() {
    let mut sels: Vec<Selection> = Vec::new();
    normalize(&mut sels);
    assert_eq!(sels, vec![Selection::cursor(0)]);
}

#[test]
fn test_normalize_merges_touching_and_keeps_apart() {
    let mut sels = vec![
        Selection::new(10, 12),
        Selection::new(0, 2),
        Selection::new(2, 4),
        Selection::cursor(6),
    ];
    normalize(&mut sels);
    assert_eq!(sels, vec![Selection::new(0, 4), Selection::cursor(6), Selection::new(10, 12)]);
}

#[test]
fn test_normalize_merge_of_backward_selection_spans_union() {
    let mut sels = vec![Selection::new(5, 0), Selection::new(3, 8)];
    normalize(&mut sels);
    assert_eq!(sels, vec![Selection::new(0, 8)]);
}

#[test]
fn test_normalize_keeps_direction_of_unmerged_selection() {
    let mut sels = vec![Selection::new(9, 7), Selection::new(1, 0)];
    normalize(&mut sels);
    assert_eq!(sels, vec![Selection::new(1, 0), Selection::new(9, 7)]);
}

#[test]
fn test_normalize_is_idempotent() {
    let mut sels = vec![Selection::new(4, 9), Selection::new(0, 2), Selection::cursor(9)];
    normalize(&mut sels);
    let once = sels.clone();
    normalize(&mut sels);
    assert_eq!(sels, once);
}

#[test]
fn test_sort_is_stable_and_ascending() {
    let sorted = sort_selections(&vec![
        Selection::new(4, 6),
        Selection::new(1, 9),
        Selection::new(4, 5),
        Selection::cursor(0),
    ]);
    assert_eq!(
        sorted,
        vec![Selection::cursor(0), Selection::new(1, 9), Selection::new(4, 6), Selection::new(4, 5)]
    );
}

#[test]
fn test_merge_selections_single_pass() {
    let merged = merge_selections(&vec![
        Selection::new(0, 3),
        Selection::new(1, 2),
        Selection::new(3, 3),
        Selection::new(5, 6),
    ]);
    assert_eq!(merged, vec![Selection::new(0, 3), Selection::new(5, 6)]);
}

#[test]
fn test_clamp_selections() {
    let mut sels = vec![Selection::new(2, 20), Selection::new(30, 1), Selection::cursor(4)];
    clamp_selections(&mut sels, 5);
    assert_eq!(sels, vec![Selection::new(2, 5), Selection::new(5, 1), Selection::cursor(4)]);
}

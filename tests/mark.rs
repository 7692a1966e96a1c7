use dua_marks::header::{Emphasis, Header};
use dua_marks::cursor::{CursorDirection, Key};
use dua_marks::mark::{MarkMode, MarkPane, TreeIndex};

fn node(size: u128, path: &str) -> Option<(u128, String)> {
    Some((size, path.to_string()))
}

fn mark(pane: MarkPane, index: TreeIndex, size: u128, path: &str) -> MarkPane {
    pane.toggle_index(index, node(size, path), false, true)
        .expect("a marked entry keeps the set present")
}

fn abc() -> MarkPane {
    let p = mark(MarkPane::new(), 10, 100, "/a");
    let p = mark(p, 20, 200, "/b");
    mark(p, 30, 300, "/c")
}

fn keys(p: &MarkPane) -> Vec<TreeIndex> {
    p.marked().iter().map(|(k, _)| *k).collect()
}

fn ranks(p: &MarkPane) -> Vec<usize> {
    p.marked().iter().map(|(_, e)| e.index).collect()
}

fn errors(p: &MarkPane) -> Vec<usize> {
    p.marked().iter().map(|(_, e)| e.num_errors_during_deletion).collect()
}

#[test]
fn unmarking_keeps_rank_order() {
    let p = abc();
    assert_eq!(ranks(&p), vec![1, 2, 3]);
    let p = p.toggle_index(20, None, false, true).unwrap();
    assert_eq!(keys(&p), vec![10, 30]);
    assert_eq!(ranks(&p), vec![1, 3]);
}

#[test]
fn moving_up_twice_from_the_last_entry() {
    let mut p = abc();
    p.set_focus(true);
    assert_eq!(p.selected(), Some(2));
    let (p, m) = p.key(Key::Up).unwrap();
    assert!(m.is_none());
    let (p, _) = p.key(Key::Char('k')).unwrap();
    assert_eq!(p.selected(), Some(0));
    assert_eq!(p.tree_index_by_list_position(0), Some(10));
}

#[test]
fn pass_with_a_failing_callback_keeps_everything() {
    let p = mark(MarkPane::new(), 1, 5, "/a");
    let p = mark(p, 2, 6, "/b");
    let (p, m) = p.key(Key::Ctrl('r')).unwrap();
    assert_eq!(m, Some(MarkMode::Delete));
    let p = p
        .iterate_deletable_items(|p: MarkPane, _i: TreeIndex| Err((p, 1)))
        .expect("failed entries stay marked");
    assert_eq!(keys(&p), vec![1, 2]);
    assert_eq!(errors(&p), vec![1, 1]);
}

#[test]
fn pass_failing_on_one_entry_removes_the_others() {
    let (p, _) = abc().key(Key::Ctrl('r')).unwrap();
    let p = p
        .iterate_deletable_items(|p: MarkPane, i: TreeIndex| {
            if i == 20 {
                Err((p, 1))
            } else {
                Ok(p)
            }
        })
        .expect("the failed entry stays marked");
    assert_eq!(keys(&p), vec![20]);
    assert_eq!(errors(&p), vec![1]);
}

#[test]
fn unmarking_the_only_entry_gives_none() {
    let p = mark(MarkPane::new(), 7, 1, "/x");
    assert!(p.toggle_index(7, None, false, true).is_none());
}

#[test]
fn pass_calls_back_once_per_entry() {
    let (p, _) = abc().key(Key::Ctrl('r')).unwrap();
    let calls = std::cell::RefCell::new(Vec::new());
    let p = p
        .iterate_deletable_items(|p: MarkPane, i: TreeIndex| {
            calls.borrow_mut().push(i);
            Err((p, 2))
        })
        .unwrap();
    assert_eq!(calls.into_inner(), vec![10, 20, 30]);
    assert_eq!(errors(&p), vec![2, 2, 2]);
}

#[test]
fn pass_that_deletes_everything_gives_none() {
    let (p, _) = abc().key(Key::Ctrl('r')).unwrap();
    let calls = std::cell::RefCell::new(0usize);
    let r = p.iterate_deletable_items(|p: MarkPane, _i: TreeIndex| {
        *calls.borrow_mut() += 1;
        Ok(p)
    });
    assert!(r.is_none());
    assert_eq!(calls.into_inner(), 3);
}

#[test]
fn new_pass_resets_failures_and_retries() {
    let (p, _) = abc().key(Key::Ctrl('r')).unwrap();
    let p = p.iterate_deletable_items(|p: MarkPane, _i: TreeIndex| Err((p, 1))).unwrap();
    assert_eq!(errors(&p), vec![1, 1, 1]);
    let (p, _) = p.key(Key::Ctrl('r')).unwrap();
    assert_eq!(errors(&p), vec![0, 0, 0]);
    assert_eq!(p.selected(), Some(0));
    let p = p
        .iterate_deletable_items(|p: MarkPane, i: TreeIndex| if i == 30 { Err((p, 4)) } else { Ok(p) })
        .unwrap();
    assert_eq!(keys(&p), vec![30]);
    assert_eq!(errors(&p), vec![4]);
}

#[test]
fn ranks_are_never_reused() {
    let p = abc();
    let p = p.toggle_index(30, None, false, true).unwrap();
    assert_eq!(p.last_rank_assigned(), 3);
    let p = mark(p, 30, 300, "/c");
    assert_eq!(ranks(&p), vec![1, 2, 4]);
    assert_eq!(p.last_rank_assigned(), 4);
    assert_eq!(p.marked_sorted_by_index(), vec![10, 20, 30]);
}

#[test]
fn remarking_without_toggle_changes_nothing() {
    let p = abc();
    let p = p.toggle_index(20, node(1, "/other"), false, false).unwrap();
    assert_eq!(keys(&p), vec![10, 20, 30]);
    assert_eq!(p.marked()[1].1.path, "/b");
    assert_eq!(p.marked()[1].1.size, 200);
}

#[test]
fn marking_a_vanished_node_is_ignored() {
    assert!(MarkPane::new().toggle_index(3, None, true, true).is_none());
    let p = abc().toggle_index(40, None, true, true).unwrap();
    assert_eq!(keys(&p), vec![10, 20, 30]);
    assert_eq!(p.last_rank_assigned(), 3);
}

#[test]
fn snapshot_is_kept() {
    let p = mark(MarkPane::new(), 5, 1234, "/data/file");
    let p = p.toggle_index(6, node(9, "/data/dir"), true, true).unwrap();
    let (k, e) = &p.marked()[1];
    assert_eq!(*k, 6);
    assert_eq!(e.size, 9);
    assert_eq!(e.path, "/data/dir");
    assert!(e.is_dir);
    assert_eq!(e.num_errors_during_deletion, 0);
    assert!(!p.marked()[0].1.is_dir);
}

#[test]
fn removing_the_last_selected_entry_moves_up() {
    let mut p = abc();
    p.set_focus(true);
    let (p, m) = p.key(Key::Char('x')).unwrap();
    assert!(m.is_none());
    assert_eq!(keys(&p), vec![10, 20]);
    assert_eq!(p.selected(), Some(1));
}

#[test]
fn removing_a_middle_entry_keeps_the_position() {
    let mut p = abc();
    p.set_focus(true);
    let (p, _) = p.key(Key::Up).unwrap();
    let (p, _) = p.key(Key::Char('d')).unwrap();
    assert_eq!(keys(&p), vec![10, 30]);
    assert_eq!(p.selected(), Some(1));
    assert_eq!(p.tree_index_by_list_position(1), Some(30));
    assert_eq!(p.tree_index_by_list_position(2), None);
}

#[test]
fn removing_the_only_entry_by_key_gives_none() {
    let mut p = mark(MarkPane::new(), 1, 1, "/a");
    p.set_focus(true);
    assert!(p.key(Key::Char(' ')).is_none());
}

#[test]
fn removal_without_selection_changes_nothing() {
    let p = abc();
    assert_eq!(p.selected(), None);
    let (p, _) = p.key(Key::Char('x')).unwrap();
    assert_eq!(keys(&p), vec![10, 20, 30]);
}

#[test]
fn page_moves_are_clamped() {
    let mut p = abc();
    p.set_focus(true);
    let (p, _) = p.key(Key::PageUp).unwrap();
    assert_eq!(p.selected(), Some(0));
    let (p, _) = p.key(Key::Ctrl('d')).unwrap();
    assert_eq!(p.selected(), Some(2));
    let (p, _) = p.key(Key::Ctrl('u')).unwrap();
    assert_eq!(p.selected(), Some(0));
    let (p, _) = p.key(Key::Down).unwrap();
    let (p, _) = p.key(Key::Char('j')).unwrap();
    let (p, _) = p.key(Key::Char('j')).unwrap();
    assert_eq!(p.selected(), Some(2));
    let (p, m) = p.key(Key::Other).unwrap();
    assert!(m.is_none());
    assert_eq!(p.selected(), Some(2));
}

#[test]
fn focus_sets_and_clears_selection() {
    let mut p = abc();
    assert!(!p.has_focus());
    p.set_focus(true);
    assert!(p.has_focus());
    assert_eq!(p.selected(), Some(2));
    p.set_focus(false);
    assert_eq!(p.selected(), None);
    let mut empty = MarkPane::new();
    empty.set_focus(true);
    assert_eq!(empty.selected(), None);
    let p = mark(empty, 4, 1, "/d");
    assert_eq!(p.selected(), Some(0));
}

#[test]
fn pass_without_selection_changes_nothing() {
    let calls = std::cell::RefCell::new(0usize);
    let p = abc()
        .iterate_deletable_items(|p: MarkPane, _i: TreeIndex| {
            *calls.borrow_mut() += 1;
            Ok(p)
        })
        .expect("nothing is deleted without a selection");
    assert_eq!(calls.into_inner(), 0);
    assert_eq!(keys(&p), vec![10, 20, 30]);
    assert_eq!(p.selected(), None);
}

#[test]
fn fresh_pass_ends_on_the_last_failed_entry() {
    let (p, _) = abc().key(Key::Ctrl('r')).unwrap();
    let p = p
        .iterate_deletable_items(|p: MarkPane, i: TreeIndex| if i == 20 { Ok(p) } else { Err((p, 7)) })
        .unwrap();
    assert_eq!(keys(&p), vec![10, 30]);
    assert_eq!(errors(&p), vec![7, 7]);
    assert_eq!(p.selected(), Some(1));
    assert_eq!(ranks(&p), vec![1, 3]);
}

#[test]
fn unmarking_the_selected_last_entry_clamps_selection() {
    let mut p = abc();
    p.set_focus(true);
    let p = p.toggle_index(30, None, false, true).unwrap();
    assert_eq!(p.selected(), Some(1));
}

#[test]
fn next_entry_skips_past_failures() {
    let (mut p, _) = abc().key(Key::Ctrl('r')).unwrap();
    assert_eq!(p.next_entry_for_deletion(), Some(10));
    p.set_error_on_marked_item(3);
    assert_eq!(errors(&p), vec![3, 0, 0]);
    assert_eq!(p.next_entry_for_deletion(), Some(20));
    assert_eq!(p.selected(), Some(1));
    let p = p.delete_entry().unwrap();
    assert_eq!(keys(&p), vec![10, 30]);
    let (mut p, _) = p.key(Key::Down).unwrap();
    p.set_error_on_marked_item(1);
    assert_eq!(p.next_entry_for_deletion(), None);
    assert_eq!(p.selected(), Some(1));
}

#[test]
fn cursor_moves_saturate() {
    assert_eq!(CursorDirection::Up.move_cursor(0), 0);
    assert_eq!(CursorDirection::Up.move_cursor(5), 4);
    assert_eq!(CursorDirection::Down.move_cursor(5), 6);
    assert_eq!(CursorDirection::Down.move_cursor(usize::MAX), usize::MAX);
    assert_eq!(CursorDirection::PageUp.move_cursor(3), 0);
    assert_eq!(CursorDirection::PageUp.move_cursor(25), 15);
    assert_eq!(CursorDirection::PageDown.move_cursor(25), 35);
    assert_eq!(CursorDirection::PageDown.move_cursor(usize::MAX - 1), usize::MAX);
}

#[test]
fn prepare_deletion_returns_delete_mode() {
    let mut p = abc();
    p.set_focus(true);
    let (p, m) = p.prepare_deletion().unwrap();
    assert_eq!(m, Some(MarkMode::Delete));
    assert_eq!(p.selected(), Some(0));
    assert!(p.has_focus());
}

#[test]
fn marked_size_sums_entries() {
    assert_eq!(abc().marked_size(), 600);
    let p = mark(MarkPane::new(), 1, u128::MAX, "/big");
    let p = mark(p, 2, 5, "/small");
    assert_eq!(p.marked_size(), u128::MAX);
}

#[test]
fn header_shows_version_and_help_hint() {
    let s = Header.segments("2.3.1");
    assert_eq!(s.len(), 11);
    assert_eq!(s[6], ("2.3.1", Emphasis::Plain));
    assert_eq!(s[0], (" D", Emphasis::Bold));
    assert_eq!(s[9], ("?", Emphasis::BoldUnderlined));
}

#[test]
fn sorting_twice_gives_the_same_order() {
    let p = abc().toggle_index(10, None, false, true).unwrap();
    let p = mark(p, 10, 100, "/a");
    let first = p.marked_sorted_by_index();
    assert_eq!(first, vec![20, 30, 10]);
    assert_eq!(p.marked_sorted_by_index(), first);
}

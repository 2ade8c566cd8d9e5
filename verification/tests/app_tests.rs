use mac_dir_stat::app::{escape_step, retarget_after_refresh, zoom_out, DirSortMode, EscapeStep, ExtSortMode};
use mac_dir_stat::scanner::tree::FileTree;
use std::time::SystemTime;

#[test]
fn sort_modes_cycle() {
    assert_eq!(DirSortMode::Size.next(), DirSortMode::Name);
    assert_eq!(DirSortMode::Recent.next(), DirSortMode::Size);
    assert_eq!(DirSortMode::Items.label(), "Items");
    assert_eq!(ExtSortMode::Name.next(), ExtSortMode::Size);
    assert_eq!(ExtSortMode::Count.label(), "Count");
}

#[test]
fn refresh_retargets_dead_ids() {
    let mut tree = FileTree::new();
    let root = tree.root();
    let d = tree.add_dir(root, b"d", false, SystemTime::now(), 1);
    let e = tree.add_dir(d, b"e", false, SystemTime::now(), 2);
    let f = tree.add_file(e, b"f", 1, None, SystemTime::now(), 3);
    tree.clear_descendants(d);
    let mut zoom = vec![root, d, e];
    let (view, sel) = retarget_after_refresh(&tree, d, Some(e), &mut zoom, Some(f));
    assert_eq!(view, Some(d));
    assert_eq!(sel, Some(d));
    assert_eq!(zoom, vec![root, d]);

    let mut zoom2 = vec![e];
    let (view2, sel2) = retarget_after_refresh(&tree, d, Some(e), &mut zoom2, None);
    assert_eq!(view2, Some(d));
    assert_eq!(sel2, None);
    assert_eq!(zoom2, vec![root]);

    let mut zoom3 = vec![root];
    let (view3, _) = retarget_after_refresh(&tree, d, Some(root), &mut zoom3, None);
    assert_eq!(view3, Some(root));
    assert_eq!(zoom3, vec![root]);
}

#[test]
fn escape_closes_the_topmost_thing_first() {
    assert_eq!(escape_step(true, true, true, 3), EscapeStep::CloseHelp);
    assert_eq!(escape_step(false, true, true, 3), EscapeStep::CloseCleanup);
    assert_eq!(escape_step(false, false, true, 3), EscapeStep::EndSearch);
    assert_eq!(escape_step(false, false, false, 2), EscapeStep::ZoomOut);
    assert_eq!(escape_step(false, false, false, 1), EscapeStep::ClearSelection);
    assert_eq!(escape_step(false, false, false, 0), EscapeStep::ClearSelection);
}

#[test]
fn zoom_out_pops_one_level() {
    let mut zoom = vec![0, 4, 9];
    assert_eq!(zoom_out(&mut zoom), Some(4));
    assert_eq!(zoom, vec![0, 4]);
    let mut last = vec![7];
    assert_eq!(zoom_out(&mut last), None);
    assert!(last.is_empty());
}

#[test]
fn dir_of_file_is_its_parent() {
    let mut tree = FileTree::new();
    let root = tree.root();
    let d = tree.add_dir(root, b"d", false, SystemTime::now(), 1);
    let f = tree.add_file(d, b"f", 1, None, SystemTime::now(), 2);
    assert_eq!(tree.dir_of(f), Some(d));
    assert_eq!(tree.dir_of(d), Some(d));
    assert_eq!(tree.dir_of(root), Some(root));
}

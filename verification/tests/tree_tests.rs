use mac_dir_stat::scanner::tree::{FileTree, NodeKind, StringArena};
use std::time::SystemTime;

#[test]
fn test_add_file_and_directory() {
    let mut tree = FileTree::new();
    let root = tree.root();

    let dir = tree.add_dir(root, b"Documents", false, SystemTime::now(), 1);

    let file = tree.add_file(
        dir,
        b"readme.txt",
        1024,
        Some("txt"),
        SystemTime::now(),
        2,
    );

    assert_eq!(tree.node(root).children().len(), 1);
    assert_eq!(tree.node(dir).children().len(), 1);
    assert_eq!(tree.node(file).size, 1024);
    assert_eq!(tree.node(file).parent, Some(dir));
}

#[test]
fn test_compute_sizes() {
    let mut tree = FileTree::new();
    let root = tree.root();

    let dir = tree.add_dir(root, b"src", false, SystemTime::now(), 1);

    tree.add_file(dir, b"a.rs", 500, Some("rs"), SystemTime::now(), 2);
    tree.add_file(dir, b"b.rs", 300, Some("rs"), SystemTime::now(), 2);

    tree.compute_sizes();

    assert_eq!(tree.node(dir).size, 800);
    assert_eq!(tree.node(root).size, 800);
}

#[test]
fn test_remove_node() {
    let mut tree = FileTree::new();
    let root = tree.root();

    let dir = tree.add_dir(root, b"tmp", false, SystemTime::now(), 1);

    let file = tree.add_file(dir, b"big.zip", 5000, Some("zip"), SystemTime::now(), 2);

    tree.compute_sizes();
    assert_eq!(tree.node(root).size, 5000);

    tree.remove_node(file);

    assert_eq!(tree.node(dir).children().len(), 0);
    assert_eq!(tree.node(dir).size, 0);
    assert_eq!(tree.node(root).size, 0);
}

#[test]
fn test_collect_extensions() {
    let mut tree = FileTree::new();
    let root = tree.root();

    tree.add_file(root, b"a.rs", 500, Some("rs"), SystemTime::now(), 1);
    tree.add_file(root, b"b.rs", 300, Some("rs"), SystemTime::now(), 1);
    tree.add_file(root, b"c.txt", 200, Some("txt"), SystemTime::now(), 1);

    let exts = tree.collect_extensions(root);
    assert_eq!(exts[0], ("rs".to_string(), 800, 2));
    assert_eq!(exts[1], ("txt".to_string(), 200, 1));
}

#[test]
fn test_compute_counts() {
    // root
    //   src/        (dir)
    //     a.rs, b.rs
    //     nested/   (dir)
    //       c.rs
    //   top.txt
    let mut tree = FileTree::new();
    let root = tree.root();
    let src = tree.add_dir(root, b"src", false, SystemTime::now(), 1);
    tree.add_file(src, b"a.rs", 1, Some("rs"), SystemTime::now(), 2);
    tree.add_file(src, b"b.rs", 1, Some("rs"), SystemTime::now(), 2);
    let nested = tree.add_dir(src, b"nested", false, SystemTime::now(), 2);
    tree.add_file(nested, b"c.rs", 1, Some("rs"), SystemTime::now(), 3);
    tree.add_file(root, b"top.txt", 1, Some("txt"), SystemTime::now(), 1);

    tree.compute_sizes();

    assert_eq!(tree.node(nested).file_count, 1);
    assert_eq!(tree.node(nested).subdir_count, 0);
    assert_eq!(tree.node(src).file_count, 3); // a, b, c
    assert_eq!(tree.node(src).subdir_count, 1); // nested
    assert_eq!(tree.node(root).file_count, 4); // a, b, c, top
    assert_eq!(tree.node(root).subdir_count, 2); // src, nested
    assert_eq!(tree.node(root).items(), 6);
}

#[test]
fn test_counts_decrement_on_remove() {
    let mut tree = FileTree::new();
    let root = tree.root();
    let src = tree.add_dir(root, b"src", false, SystemTime::now(), 1);
    tree.add_file(src, b"a.rs", 1, Some("rs"), SystemTime::now(), 2);
    let nested = tree.add_dir(src, b"nested", false, SystemTime::now(), 2);
    tree.add_file(nested, b"c.rs", 1, Some("rs"), SystemTime::now(), 3);
    tree.compute_sizes();
    assert_eq!(tree.node(root).file_count, 2);
    assert_eq!(tree.node(root).subdir_count, 2);

    // Removing the nested dir drops its file (c.rs) and itself from totals.
    tree.remove_node(nested);
    assert_eq!(tree.node(src).file_count, 1); // only a.rs remains
    assert_eq!(tree.node(src).subdir_count, 0);
    assert_eq!(tree.node(root).file_count, 1);
    assert_eq!(tree.node(root).subdir_count, 1); // only src
}

#[test]
fn test_full_path() {
    let mut tree = FileTree::new();
    let root = tree.root();

    let users = tree.add_dir(root, b"Users", false, SystemTime::now(), 1);
    let pavol = tree.add_dir(users, b"pavol", false, SystemTime::now(), 2);
    let file = tree.add_file(pavol, b"test.txt", 100, Some("txt"), SystemTime::now(), 3);

    let path = tree.full_path(file);
    assert_eq!(std::str::from_utf8(&path).unwrap(), "/Users/pavol/test.txt");
}

#[test]
fn new_tree_has_slash_root() {
    let tree = FileTree::new();
    assert_eq!(tree.name_bytes(tree.root()), b"/");
    assert_eq!(tree.name(tree.root()), "/");
    assert_eq!(tree.node_count(), 1);
    assert!(tree.node(tree.root()).is_dir());
}

#[test]
fn rename_root_changes_full_path() {
    let mut tree = FileTree::new();
    let root = tree.root();
    tree.rename_root(b"/Volumes/Data");
    let f = tree.add_file(root, b"x.bin", 1, None, SystemTime::now(), 1);
    assert_eq!(tree.full_path(f), b"/Volumes/Data/x.bin".to_vec());
    assert_eq!(tree.full_path(root), b"/Volumes/Data".to_vec());
}

#[test]
fn extension_of_file_and_dir() {
    let mut tree = FileTree::new();
    let root = tree.root();
    let d = tree.add_dir(root, b"d", true, SystemTime::now(), 1);
    let f = tree.add_file(d, b"a.mov", 10, Some("mov"), SystemTime::now(), 2);
    let g = tree.add_file(d, b"Makefile", 10, None, SystemTime::now(), 2);
    assert_eq!(tree.extension(f), Some("mov"));
    assert_eq!(tree.extension(g), None);
    assert_eq!(tree.extension(d), None);
    assert!(tree.node(f).is_file());
    assert!(matches!(tree.node(d).kind, NodeKind::Directory { expanded: true, .. }));
}

#[test]
fn remove_keeps_parent_totals_equal_to_children() {
    // Removing a node leaves every directory's totals equal to the sum over
    // its live children.
    let mut tree = FileTree::new();
    let root = tree.root();
    let a = tree.add_dir(root, b"a", false, SystemTime::now(), 1);
    let b = tree.add_dir(a, b"b", false, SystemTime::now(), 2);
    tree.add_file(b, b"x", 7, None, SystemTime::now(), 3);
    let y = tree.add_file(a, b"y", 11, None, SystemTime::now(), 2);
    tree.add_file(root, b"z", 13, None, SystemTime::now(), 1);
    tree.compute_sizes();
    assert_eq!(tree.node(root).size, 31);
    tree.remove_node(y);
    assert_eq!(tree.node(a).size, 7);
    assert_eq!(tree.node(root).size, 20);
    assert_eq!(tree.node(a).file_count, 1);
    assert_eq!(tree.node(root).file_count, 2);
    assert!(!tree.is_alive(y));
    assert_eq!(tree.node_count(), 5);
}

#[test]
fn remove_saturates_at_zero() {
    // Sizes recorded before compute_sizes may be smaller than what is
    // removed; the subtraction stops at zero.
    let mut tree = FileTree::new();
    let root = tree.root();
    let f = tree.add_file(root, b"f", 100, None, SystemTime::now(), 1);
    tree.remove_node(f);
    assert_eq!(tree.node(root).size, 0);
}

#[test]
fn children_sorted_largest_first_ties_in_order() {
    let mut tree = FileTree::new();
    let root = tree.root();
    let a = tree.add_file(root, b"a", 5, None, SystemTime::now(), 1);
    let b = tree.add_file(root, b"b", 9, None, SystemTime::now(), 1);
    let c = tree.add_file(root, b"c", 5, None, SystemTime::now(), 1);
    let d = tree.add_file(root, b"d", 1, None, SystemTime::now(), 1);
    tree.remove_node(d);
    assert_eq!(tree.children_sorted(root), vec![b, a, c]);
}

#[test]
fn collect_files_in_depth_first_order() {
    let mut tree = FileTree::new();
    let root = tree.root();
    let d = tree.add_dir(root, b"d", false, SystemTime::now(), 1);
    let f1 = tree.add_file(d, b"1", 1, None, SystemTime::now(), 2);
    let f2 = tree.add_file(root, b"2", 1, None, SystemTime::now(), 1);
    let f3 = tree.add_file(d, b"3", 1, None, SystemTime::now(), 2);
    assert_eq!(tree.collect_files(root), vec![f1, f3, f2]);
    tree.remove_node(f3);
    assert_eq!(tree.collect_files(root), vec![f1, f2]);
    assert_eq!(tree.collect_files(d), vec![f1]);
}

#[test]
fn collect_extensions_without_extension_is_empty_key() {
    let mut tree = FileTree::new();
    let root = tree.root();
    tree.add_file(root, b"README", 3, None, SystemTime::now(), 1);
    tree.add_file(root, b"a.md", 10, Some("md"), SystemTime::now(), 1);
    let exts = tree.collect_extensions(root);
    assert_eq!(exts, vec![("md".to_string(), 10, 1), ("".to_string(), 3, 1)]);
}

#[test]
fn clear_descendants_and_recompute() {
    let mut tree = FileTree::new();
    let root = tree.root();
    let d = tree.add_dir(root, b"d", false, SystemTime::now(), 1);
    let e = tree.add_dir(d, b"e", false, SystemTime::now(), 2);
    let f = tree.add_file(e, b"f", 4, None, SystemTime::now(), 3);
    tree.add_file(root, b"g", 6, None, SystemTime::now(), 1);
    tree.compute_sizes();
    assert_eq!(tree.node(root).size, 10);
    tree.clear_descendants(d);
    assert!(tree.is_alive(d));
    assert!(!tree.is_alive(e));
    assert!(!tree.is_alive(f));
    assert_eq!(tree.node(d).children().len(), 0);
    tree.recompute_sizes_upward(d);
    assert_eq!(tree.node(d).size, 0);
    assert_eq!(tree.node(root).size, 6);
    assert_eq!(tree.node(root).file_count, 1);
    assert_eq!(tree.node(root).subdir_count, 1);
}

#[test]
fn graft_replaces_subtree_with_source_content() {
    let mut tree = FileTree::new();
    let root = tree.root();
    let d = tree.add_dir(root, b"d", false, SystemTime::now(), 1);
    let old = tree.add_file(d, b"old.txt", 50, Some("txt"), SystemTime::now(), 2);
    tree.add_file(root, b"keep", 5, None, SystemTime::now(), 1);
    tree.compute_sizes();

    let mut src = FileTree::new();
    let sroot = src.root();
    let sub = src.add_dir(sroot, b"sub", false, SystemTime::now(), 1);
    src.add_file(sub, b"deep.rs", 7, Some("rs"), SystemTime::now(), 2);
    src.add_file(sroot, b"new.txt", 20, Some("txt"), SystemTime::now(), 1);
    src.compute_sizes();

    tree.graft_under(d, src);
    assert!(!tree.is_alive(old));
    let kids = tree.node(d).children().to_vec();
    assert_eq!(kids.len(), 2);
    // Copies come in graft order: the source root's last child first.
    let first = kids[0];
    let second = kids[1];
    assert_eq!(tree.name(first), "new.txt");
    assert_eq!(tree.name(second), "sub");
    assert_eq!(tree.node(first).depth, 2);
    assert_eq!(tree.extension(first), Some("txt"));
    let deep = tree.node(second).children()[0];
    assert_eq!(tree.name(deep), "deep.rs");
    assert_eq!(tree.node(deep).depth, 3);
    assert_eq!(tree.full_path(deep), b"/d/sub/deep.rs".to_vec());
    // A copied directory keeps its source totals; the target and its
    // ancestors are refreshed from their children, as a fresh scan.
    assert_eq!(tree.node(second).size, 7);
    assert_eq!(tree.node(second).file_count, 1);
    assert_eq!(tree.node(d).size, 27);
    assert_eq!(tree.node(d).file_count, 2);
    assert_eq!(tree.node(d).subdir_count, 1);
    assert_eq!(tree.node(root).size, 32);
    tree.compute_sizes();
    assert_eq!(tree.node(d).size, 27);
    assert_eq!(tree.node(root).size, 32);
}

#[test]
fn graft_skips_removed_source_nodes() {
    let mut tree = FileTree::new();
    let root = tree.root();
    let mut src = FileTree::new();
    let sroot = src.root();
    let gone = src.add_file(sroot, b"gone", 1, None, SystemTime::now(), 1);
    src.add_file(sroot, b"here", 2, None, SystemTime::now(), 1);
    src.remove_node(gone);
    tree.graft_under(root, src);
    assert_eq!(tree.node(root).children().len(), 1);
    assert_eq!(tree.node(root).size, 2);
}

#[test]
fn string_arena_round_trip() {
    let mut arena = StringArena::new();
    let a = arena.intern_bytes(b"abc");
    let b = arena.intern_str("défi");
    assert_eq!(arena.get(a), b"abc");
    assert_eq!(arena.get(b), "défi".as_bytes());
}

#[test]
fn sizes_fit_detects_overflow() {
    let mut tree = FileTree::new();
    let root = tree.root();
    tree.add_file(root, b"a", u64::MAX, None, SystemTime::now(), 1);
    assert!(tree.sizes_fit());
    tree.add_file(root, b"b", 1, None, SystemTime::now(), 1);
    assert!(!tree.sizes_fit());
}

#[test]
fn expand_ancestors_opens_every_folder_above() {
    let mut tree = FileTree::new();
    let root = tree.root();
    let a = tree.add_dir(root, b"a", false, SystemTime::now(), 1);
    let b = tree.add_dir(a, b"b", false, SystemTime::now(), 2);
    let c = tree.add_dir(b, b"c", false, SystemTime::now(), 3);
    let other = tree.add_dir(root, b"o", false, SystemTime::now(), 1);
    tree.expand_ancestors(c);
    let open = |t: &FileTree, id: usize| matches!(t.node(id).kind, NodeKind::Directory { expanded: true, .. });
    assert!(open(&tree, a));
    assert!(open(&tree, b));
    assert!(!open(&tree, c));
    assert!(!open(&tree, other));
}

#[test]
fn try_collect_extensions_reports_overflow() {
    let mut tree = FileTree::new();
    let root = tree.root();
    tree.add_file(root, b"a.bin", u64::MAX, Some("bin"), SystemTime::now(), 1);
    tree.add_file(root, b"b.txt", 7, Some("txt"), SystemTime::now(), 1);
    let stats = tree.try_collect_extensions(root).unwrap();
    assert_eq!(stats, tree.collect_extensions(root));
    assert_eq!(stats[0], ("bin".to_string(), u64::MAX, 1));
    tree.add_file(root, b"c.bin", 1, Some("bin"), SystemTime::now(), 1);
    assert_eq!(tree.try_collect_extensions(root), None);
}

#[test]
fn try_graft_under_reports_overflow() {
    let mut tree = FileTree::new();
    let root = tree.root();
    let d = tree.add_dir(root, b"d", false, SystemTime::now(), 1);
    tree.add_file(root, b"big", u64::MAX, None, SystemTime::now(), 1);
    tree.compute_sizes();

    let mut small = FileTree::new();
    let sroot = small.root();
    small.add_file(sroot, b"one", 1, None, SystemTime::now(), 1);
    small.compute_sizes();
    assert!(!tree.try_graft_under(d, small));
    assert_eq!(tree.node(d).size, 1);

    let mut ok_tree = FileTree::new();
    let r = ok_tree.root();
    let e = ok_tree.add_dir(r, b"e", false, SystemTime::now(), 1);
    let mut src = FileTree::new();
    let s = src.root();
    src.add_file(s, b"x", 3, None, SystemTime::now(), 1);
    assert!(ok_tree.try_graft_under(e, src));
    assert_eq!(ok_tree.node(e).size, 3);
    assert_eq!(ok_tree.node(r).size, 3);
}

#[test]
fn try_recompute_reports_overflow() {
    let mut tree = FileTree::new();
    let root = tree.root();
    let d = tree.add_dir(root, b"d", false, SystemTime::now(), 1);
    tree.add_file(d, b"a", u64::MAX, None, SystemTime::now(), 2);
    assert!(tree.try_recompute_sizes_upward(d));
    assert_eq!(tree.node(root).size, u64::MAX);
    tree.add_file(root, b"b", 1, None, SystemTime::now(), 1);
    assert!(!tree.try_recompute_sizes_upward(d));
}

#[test]
fn toggle_expanded_flips_one_folder() {
    let mut tree = FileTree::new();
    let root = tree.root();
    let d = tree.add_dir(root, b"d", false, SystemTime::now(), 1);
    let f = tree.add_file(d, b"f", 1, None, SystemTime::now(), 2);
    tree.toggle_expanded(d);
    assert!(matches!(tree.node(d).kind, NodeKind::Directory { expanded: true, .. }));
    assert!(matches!(tree.node(root).kind, NodeKind::Directory { expanded: true, .. }));
    tree.toggle_expanded(d);
    assert!(matches!(tree.node(d).kind, NodeKind::Directory { expanded: false, .. }));
    tree.toggle_expanded(f);
    assert!(tree.node(f).is_file());
}

#[test]
fn graft_refresh_reads_as_fresh_scan() {
    let t0 = std::time::UNIX_EPOCH;
    let mut t = FileTree::new();
    let a = t.add_dir(0, b"a", true, t0, 1);
    let old = t.add_file(a, b"old.txt", 10, Some("txt"), t0, 2);
    t.compute_sizes();
    let mut s = FileTree::new();
    let sub = s.add_dir(0, b"sub", false, t0, 1);
    s.add_file(sub, b"x.bin", 100, Some("bin"), t0, 2);
    s.add_file(0, b"y.txt", 5, Some("txt"), t0, 1);
    s.compute_sizes();
    t.graft_under(a, s);
    assert!(!t.is_alive(old));
    let kids = t.node(a).children().to_vec();
    assert_eq!(kids.len(), 2);
    let copied_sub = kids.iter().copied().find(|&k| t.name(k) == "sub").unwrap();
    assert_eq!(t.node(copied_sub).size, 100);
    assert_eq!(t.node(a).size, 105);
    assert_eq!(t.node(0).size, 105);
}

#[test]
fn refresh_upward_matches_full_recompute() {
    let t0 = std::time::UNIX_EPOCH;
    let mut a = FileTree::new();
    let d = a.add_dir(0, b"d", true, t0, 1);
    let e = a.add_dir(d, b"e", true, t0, 2);
    a.add_file(e, b"x", 4, None, t0, 3);
    a.add_file(0, b"y", 6, None, t0, 1);
    a.compute_sizes();
    a.add_file(e, b"z", 10, None, t0, 3);
    let mut b = FileTree::new();
    let d2 = b.add_dir(0, b"d", true, t0, 1);
    let e2 = b.add_dir(d2, b"e", true, t0, 2);
    b.add_file(e2, b"x", 4, None, t0, 3);
    b.add_file(0, b"y", 6, None, t0, 1);
    b.add_file(e2, b"z", 10, None, t0, 3);
    a.recompute_sizes_upward(e);
    b.compute_sizes();
    for id in [0, d, e] {
        assert_eq!(a.node(id).size, b.node(id).size);
        assert_eq!(a.node(id).file_count, b.node(id).file_count);
        assert_eq!(a.node(id).subdir_count, b.node(id).subdir_count);
    }
    assert_eq!(a.node(0).size, 20);
}

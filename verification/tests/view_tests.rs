use mac_dir_stat::app::{DirSortMode, ExtSortMode};
use mac_dir_stat::scanner::tree::FileTree;
use mac_dir_stat::ui::context_menu::menu_title;
use mac_dir_stat::ui::dir_tree::{all_items_fit, offset_key, sorted_children, visible_dirs};
use mac_dir_stat::ui::ext_list::sorted_stats;
use mac_dir_stat::ui::treemap_view::{contains_bytes, is_dimmed};
use std::time::{Duration, SystemTime, UNIX_EPOCH};

fn at(secs: u64) -> SystemTime {
    UNIX_EPOCH + Duration::from_secs(secs)
}

/// root: "b" dir (2 files, 30 bytes), "A" dir (1 file, 30 bytes),
/// "c.txt" 50 bytes, "d" dir (removed).
fn sample() -> (FileTree, usize, usize, usize, usize) {
    let mut t = FileTree::new();
    let root = t.root();
    let b = t.add_dir(root, b"b", false, at(100), 1);
    t.add_file(b, b"x", 10, None, at(100), 2);
    t.add_file(b, b"y", 20, None, at(100), 2);
    let a = t.add_dir(root, b"A", true, at(300), 1);
    t.add_file(a, b"z", 30, None, at(300), 2);
    let c = t.add_file(root, b"c.txt", 50, Some("txt"), at(200), 1);
    let d = t.add_dir(root, b"d", false, at(400), 1);
    t.compute_sizes();
    t.remove_node(d);
    (t, b, a, c, d)
}

#[test]
fn children_by_size_largest_first_ties_in_list_order() {
    let (t, b, a, c, _) = sample();
    assert_eq!(sorted_children(&t, t.root(), DirSortMode::Size), vec![c, b, a]);
}

#[test]
fn children_by_items_then_size() {
    let (t, b, a, c, _) = sample();
    assert!(all_items_fit(&t));
    assert_eq!(sorted_children(&t, t.root(), DirSortMode::Items), vec![b, a, c]);
}

#[test]
fn children_by_name_ignore_case() {
    let (t, b, a, c, _) = sample();
    assert_eq!(sorted_children(&t, t.root(), DirSortMode::Name), vec![a, b, c]);
}

#[test]
fn children_by_recent_newest_first() {
    let (t, b, a, c, _) = sample();
    assert_eq!(sorted_children(&t, t.root(), DirSortMode::Recent), vec![a, c, b]);
}

#[test]
fn visible_dirs_follow_expansion_and_order() {
    let (mut t, b, a, _, _) = sample();
    let root = t.root();
    assert_eq!(visible_dirs(&t, DirSortMode::Size), vec![root, b, a]);
    assert_eq!(visible_dirs(&t, DirSortMode::Name), vec![root, a, b]);
    assert_eq!(visible_dirs(&t, DirSortMode::Recent), vec![root, a, b]);
    let inner = t.add_dir(b, b"inner", false, at(100), 2);
    assert_eq!(visible_dirs(&t, DirSortMode::Name), vec![root, a, b]);
    let q = t.add_file(inner, b"q", 1, None, at(1), 3);
    t.expand_ancestors(q);
    assert_eq!(visible_dirs(&t, DirSortMode::Name), vec![root, a, b, inner]);
}

#[test]
fn stats_orders() {
    let stats = vec![
        ("rs".to_string(), 100u64, 3usize),
        ("md".to_string(), 300u64, 1usize),
        ("Zip".to_string(), 100u64, 3usize),
        ("txt".to_string(), 200u64, 3usize),
    ];
    let names = |v: Vec<(String, u64, usize)>| v.into_iter().map(|e| e.0).collect::<Vec<_>>();
    assert_eq!(names(sorted_stats(&stats, ExtSortMode::Size)), vec!["md", "txt", "rs", "Zip"]);
    assert_eq!(names(sorted_stats(&stats, ExtSortMode::Count)), vec!["txt", "rs", "Zip", "md"]);
    assert_eq!(names(sorted_stats(&stats, ExtSortMode::Name)), vec!["Zip", "md", "rs", "txt"]);
    assert_eq!(sorted_stats(&stats, ExtSortMode::Size)[0], ("md".to_string(), 300, 1));
    assert!(sorted_stats(&Vec::new(), ExtSortMode::Name).is_empty());
}

#[test]
fn byte_runs() {
    assert!(contains_bytes(b"report.pdf", b"port"));
    assert!(contains_bytes(b"abc", b""));
    assert!(contains_bytes(b"abc", b"abc"));
    assert!(!contains_bytes(b"abc", b"abcd"));
    assert!(!contains_bytes(b"abc", b"ac"));
}

#[test]
fn dimming_by_type_and_search() {
    let (t, b, _, c, _) = sample();
    assert!(!is_dimmed(&t, c, None, None));
    assert!(!is_dimmed(&t, c, Some("txt"), None));
    assert!(is_dimmed(&t, c, Some("rs"), None));
    assert!(is_dimmed(&t, b, Some("txt"), None));
    assert!(!is_dimmed(&t, c, None, Some("c.t")));
    assert!(is_dimmed(&t, c, None, Some("zz")));
    let mut u = FileTree::new();
    let root = u.root();
    let f = u.add_file(root, b"README.md", 1, Some("md"), at(1), 1);
    assert!(!is_dimmed(&u, f, Some("md"), Some("readme")));
    assert!(is_dimmed(&u, f, Some("md"), Some("README")));
}

#[test]
fn menu_titles_cut_long_names() {
    assert_eq!(menu_title("short.txt"), "short.txt");
    let exact: String = "a".repeat(32);
    assert_eq!(menu_title(&exact), exact);
    let long: String = "é".repeat(33);
    assert_eq!(menu_title(&long), format!("{}…", "é".repeat(30)));
}

#[test]
fn offset_keys_put_newest_first() {
    let mid: u128 = 1 << 127;
    assert_eq!(offset_key(Ok(0)), u128::MAX - mid);
    assert_eq!(offset_key(Ok(5)), u128::MAX - mid - 5);
    assert_eq!(offset_key(Err(5)), u128::MAX - mid + 5);
    assert_eq!(offset_key(Ok(u128::MAX)), 0);
    assert_eq!(offset_key(Err(u128::MAX)), u128::MAX);
    assert!(offset_key(Ok(10)) < offset_key(Ok(9)));
    assert!(offset_key(Ok(0)) < offset_key(Err(1)));
}

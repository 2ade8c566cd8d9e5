use mac_dir_stat::scanner::tree::{FileTree, NodeKind};
use mac_dir_stat::scanner::walk::{
    add_volume_nodes, build_skip_paths, find_closest_ancestor, is_photos_library, record_entry, should_skip,
    MIN_SKIPPED_BYTES,
};
use std::time::SystemTime;

#[test]
fn skip_rules() {
    let skips = vec![b"/Users/me/Library/Mail".to_vec()];
    assert!(should_skip(b"/System/Volumes/Data", b"/", &skips));
    assert!(should_skip(b"/Volumes/USB", b"/", &skips));
    assert!(!should_skip(b"/Volumes/USB", b"/Volumes", &skips));
    assert!(should_skip(b"/Users/me/Library/Mail/V10", b"/", &skips));
    assert!(!should_skip(b"/Users/me/Library/MailData", b"/", &skips));
    assert!(should_skip(b"/Users/me/Pictures/Photos Library.photoslibrary", b"/", &skips));
    assert!(!should_skip(b"/Users/me/Pictures", b"/", &skips));
}

#[test]
fn photos_libraries() {
    assert!(is_photos_library(b"/p/Old.photolibrary"));
    assert!(is_photos_library(b"/p/New.photoslibrary/"));
    assert!(!is_photos_library(b"/p/photoslibrary"));
}

#[test]
fn closest_ancestor_walks_up() {
    let map = vec![(b"/".to_vec(), 0usize), (b"/a".to_vec(), 1usize), (b"/a/b/c".to_vec(), 3usize)];
    assert_eq!(find_closest_ancestor(&map, b"/a/b/c/d"), Some(3));
    assert_eq!(find_closest_ancestor(&map, b"/a/b/x"), Some(1));
    assert_eq!(find_closest_ancestor(&map, b"/a//b/c/"), Some(1));
    assert_eq!(find_closest_ancestor(&map, b"/z"), Some(0));
    assert_eq!(find_closest_ancestor(&map, b"/"), None);
    assert_eq!(find_closest_ancestor(&map, b"rel/x"), None);
}

#[test]
fn skip_list_with_and_without_home() {
    let without = build_skip_paths(None);
    assert_eq!(without.len(), 4);
    assert_eq!(without[0], b"/System/Volumes".to_vec());
    assert_eq!(without[3], b"/.PKInstallSandboxManager-SystemSoftware".to_vec());
    let with = build_skip_paths(Some(b"/Users/me"));
    assert_eq!(with.len(), 23);
    assert_eq!(with[4], b"/Users/me/Library/Mail".to_vec());
    assert_eq!(with[22], b"/Users/me/Library/Containers/com.apple.mail".to_vec());
    let slash = build_skip_paths(Some(b"/Users/me/"));
    assert_eq!(slash[17], b"/Users/me/Library/Application Support/AddressBook".to_vec());
}

#[test]
fn entries_recorded_with_depth_and_extension() {
    let mut tree = FileTree::new();
    let root = tree.root();
    let d = record_entry(&mut tree, root, b"/scan/docs", b"/scan", b"docs", true, 0, SystemTime::now());
    assert!(tree.node(d).is_dir());
    assert_eq!(tree.node(d).depth, 1);
    assert!(matches!(tree.node(d).kind, NodeKind::Directory { expanded: true, .. }));
    let deep = record_entry(&mut tree, d, b"/scan/docs/x/y", b"/scan", b"y", true, 0, SystemTime::now());
    assert_eq!(tree.node(deep).depth, 3);
    assert!(matches!(tree.node(deep).kind, NodeKind::Directory { expanded: false, .. }));
    let f = record_entry(&mut tree, d, b"/scan/docs/Report.PDF", b"/scan", b"Report.PDF", false, 42, SystemTime::now());
    assert_eq!(tree.node(f).size, 42);
    assert_eq!(tree.node(f).depth, 2);
    assert_eq!(tree.extension(f), Some("pdf"));
    assert_eq!(tree.name(f), "Report.PDF");
    let g = record_entry(&mut tree, d, b"/scan/docs/Makefile", b"/scan", b"Makefile", false, 1, SystemTime::now());
    assert_eq!(tree.extension(g), None);
    assert_eq!(tree.node(d).children().to_vec(), vec![deep, f, g]);
}

#[test]
fn volume_nodes_for_free_and_unseen_space() {
    let mut tree = FileTree::new();
    let root = tree.root();
    tree.add_file(root, b"a", 100 << 20, None, SystemTime::now(), 1);
    tree.compute_sizes();
    add_volume_nodes(&mut tree, 500 << 20, 300 << 20);
    let kids = tree.node(root).children().to_vec();
    assert_eq!(kids.len(), 3);
    assert_eq!(tree.name(kids[1]), "<Free Space>");
    assert_eq!(tree.node(kids[1]).size, 300 << 20);
    assert_eq!(tree.extension(kids[1]), Some("__free_space__"));
    assert_eq!(tree.name(kids[2]), "<Hidden / Skipped>");
    assert_eq!(tree.node(kids[2]).size, 100 << 20);
    assert_eq!(tree.extension(kids[2]), Some("__skipped__"));

    let mut small = FileTree::new();
    let r = small.root();
    small.add_file(r, b"a", 100, None, SystemTime::now(), 1);
    small.compute_sizes();
    add_volume_nodes(&mut small, 1000, 0);
    assert_eq!(small.node(r).children().len(), 1);
    assert_eq!(MIN_SKIPPED_BYTES, 16 * 1024 * 1024);
}

use mac_dir_stat::cleanup::{candidates_total, category_total, classify, find_candidates, selection, CleanupCandidate};
use mac_dir_stat::scanner::tree::FileTree;
use std::time::SystemTime;

#[test]
fn classify_suffix_rules() {
    assert_eq!(
        classify(b"/Users/me/Library/Caches"),
        Some((
            "Application Caches",
            "Apps regenerate caches as needed. Only obviously safe ones; don't worry — your data isn't here."
        ))
    );
    assert_eq!(classify(b"/Users/me/Library/Developer/Xcode/DerivedData").unwrap().0, "Xcode DerivedData");
    assert_eq!(classify(b"/Users/me/.cargo/registry").unwrap().0, "Cargo registry cache");
}

#[test]
fn classify_suffix_before_name() {
    // "DerivedData" is also a name rule; the location-specific suffix wins.
    assert_eq!(classify(b"/x/Library/Developer/Xcode/DerivedData").unwrap().0, "Xcode DerivedData");
    assert_eq!(classify(b"/x/elsewhere/DerivedData").unwrap().0, "DerivedData (loose)");
}

#[test]
fn classify_name_rules() {
    assert_eq!(classify(b"/p/web/node_modules").unwrap().0, "node_modules");
    assert_eq!(classify(b"/p/rust/target").unwrap().0, "Rust target/");
    assert_eq!(classify(b"/Users/me/.Trash").unwrap().0, "Trash");
    assert_eq!(classify(b"/Volumes/X/.Trashes").unwrap().0, "Trash");
    assert_eq!(classify(b"/p/app/__pycache__/").unwrap().0, "Python __pycache__");
}

#[test]
fn classify_no_match() {
    assert_eq!(classify(b"/Users/me/Documents"), None);
    assert_eq!(classify(b"/"), None);
    assert_eq!(classify(b""), None);
    assert_eq!(classify(b"/p/target/.."), None);
    // Only a whole name matches.
    assert_eq!(classify(b"/p/targets"), None);
}

#[test]
fn find_candidates_sorted_and_not_nested() {
    let mut tree = FileTree::new();
    let root = tree.root();
    tree.rename_root(b"/Users/me");
    let lib = tree.add_dir(root, b"Library", false, SystemTime::now(), 1);
    let caches = tree.add_dir(lib, b"Caches", false, SystemTime::now(), 2);
    let inner = tree.add_dir(caches, b"node_modules", false, SystemTime::now(), 3);
    tree.add_file(inner, b"big", 3 * 1024 * 1024, None, SystemTime::now(), 4);
    let proj = tree.add_dir(root, b"proj", false, SystemTime::now(), 1);
    let nm = tree.add_dir(proj, b"node_modules", false, SystemTime::now(), 2);
    tree.add_file(nm, b"pkg", 5 * 1024 * 1024, None, SystemTime::now(), 3);
    let small = tree.add_dir(proj, b"target", false, SystemTime::now(), 2);
    tree.add_file(small, b"tiny", 10, None, SystemTime::now(), 3);
    tree.compute_sizes();

    let found = find_candidates(&tree, root);
    assert_eq!(found.len(), 2);
    assert_eq!(found[0].node_id, nm);
    assert_eq!(found[0].size, 5 * 1024 * 1024);
    assert_eq!(found[0].path, b"/Users/me/proj/node_modules".to_vec());
    assert_eq!(found[1].node_id, caches);
    assert_eq!(found[1].category, "Application Caches");
}

fn cand(id: usize, category: &'static str, size: u64) -> CleanupCandidate {
    CleanupCandidate { node_id: id, path: Vec::new(), category, description: "", size }
}

#[test]
fn selection_keeps_list_order_and_sums() {
    let cands = vec![cand(3, "Caches", 10), cand(1, "Logs", 20), cand(7, "Caches", 30)];
    let mut sel = std::collections::HashSet::new();
    sel.insert(7usize);
    sel.insert(3usize);
    sel.insert(99usize);
    assert_eq!(selection(&cands, &sel), Some((vec![3, 7], 40)));
    assert_eq!(selection(&cands, &std::collections::HashSet::new()), Some((vec![], 0)));
    let big = vec![cand(1, "A", u64::MAX), cand(2, "A", 1)];
    let all: std::collections::HashSet<usize> = [1usize, 2].into_iter().collect();
    assert_eq!(selection(&big, &all), None);
}

#[test]
fn category_totals() {
    let cands = vec![cand(3, "Caches", 10), cand(1, "Logs", 20), cand(7, "Caches", 30)];
    assert_eq!(category_total(&cands, "Caches"), Some(40));
    assert_eq!(category_total(&cands, "Logs"), Some(20));
    assert_eq!(category_total(&cands, "Trash"), Some(0));
    let big = vec![cand(1, "A", u64::MAX), cand(2, "A", 1)];
    assert_eq!(category_total(&big, "A"), None);
}

#[test]
fn candidates_total_sums_all() {
    let cands = vec![cand(3, "Caches", 10), cand(1, "Logs", 20)];
    assert_eq!(candidates_total(&cands), Some(30));
    assert_eq!(candidates_total(&Vec::new()), Some(0));
    let big = vec![cand(1, "A", u64::MAX), cand(2, "B", 1)];
    assert_eq!(candidates_total(&big), None);
}

use mac_dir_stat::paths::{bytes_end_with, extension, file_name, path_components, starts_with};

#[test]
fn file_name_like_std() {
    assert_eq!(file_name(b"/usr/bin/"), Some(b"bin".to_vec()));
    assert_eq!(file_name(b"tmp/foo.txt"), Some(b"foo.txt".to_vec()));
    assert_eq!(file_name(b"foo.txt/."), Some(b"foo.txt".to_vec()));
    assert_eq!(file_name(b"foo.txt/.//"), Some(b"foo.txt".to_vec()));
    assert_eq!(file_name(b"foo.txt/.."), None);
    assert_eq!(file_name(b"/"), None);
}

#[test]
fn extension_like_std() {
    assert_eq!(extension(b"foo.rs"), Some(b"rs".to_vec()));
    assert_eq!(extension(b"foo.tar.gz"), Some(b"gz".to_vec()));
    assert_eq!(extension(b".bashrc"), None);
    assert_eq!(extension(b"foo"), None);
    assert_eq!(extension(b"foo."), Some(Vec::new()));
    assert_eq!(extension(b"/a/My.photoslibrary/"), Some(b"photoslibrary".to_vec()));
}

#[test]
fn starts_with_whole_components() {
    assert!(starts_with(b"/etc/passwd", b"/etc"));
    assert!(starts_with(b"/etc/passwd", b"/etc/"));
    assert!(starts_with(b"/etc/passwd", b"/etc/passwd"));
    assert!(starts_with(b"/etc/passwd", b"/"));
    assert!(!starts_with(b"/etc/passwd", b"/e"));
    assert!(!starts_with(b"/etc/foo.rs", b"/etc/foo"));
    assert!(!starts_with(b"etc/passwd", b"/etc"));
    assert!(starts_with(b"/a//b/./c", b"/a/b"));
}

#[test]
fn components_of_paths() {
    assert_eq!(path_components(b"/a/b"), vec![b"/".to_vec(), b"a".to_vec(), b"b".to_vec()]);
    assert_eq!(path_components(b"./a"), vec![b".".to_vec(), b"a".to_vec()]);
    assert_eq!(path_components(b"a/./b/../"), vec![b"a".to_vec(), b"b".to_vec(), b"..".to_vec()]);
    assert!(path_components(b"").is_empty());
}

#[test]
fn suffix_match() {
    assert!(bytes_end_with(b"/Users/me/Library/Logs", b"Library/Logs"));
    assert!(!bytes_end_with(b"Logs", b"Library/Logs"));
}

use mac_dir_stat::finder::{escape_for_applescript, get_info_script};

#[test]
fn escapes_backslashes_and_quotes() {
    assert_eq!(escape_for_applescript("plain/path"), "plain/path");
    assert_eq!(escape_for_applescript(r#"a"b\c"#), r#"a\"b\\c"#);
    assert_eq!(escape_for_applescript(r#""""#), r#"\"\""#);
    assert_eq!(escape_for_applescript("é\"ü"), "é\\\"ü");
    assert_eq!(escape_for_applescript(""), "");
}

#[test]
fn info_script_for_path() {
    let s = get_info_script(b"/Users/me/My \"Docs\"");
    assert_eq!(
        s,
        "tell application \"Finder\"\nactivate\nopen information window of (POSIX file \"/Users/me/My \\\"Docs\\\"\" as alias)\nend tell"
    );
    let lossy = get_info_script(b"/x/\xff");
    assert!(lossy.contains("/x/\u{fffd}"));
}

use mac_dir_stat::state::{parse_state, state_text, PersistedState};
use mac_dir_stat::treemap::color::ColorMode;

#[test]
fn saved_state_reads_back() {
    let text = state_text(b"/Users/me/Downloads", ColorMode::Age);
    assert_eq!(text, b"scan_root=/Users/me/Downloads\ncolor_mode=Age\n".to_vec());
    let s = parse_state(&text);
    assert_eq!(s.scan_root, Some(b"/Users/me/Downloads".to_vec()));
    assert_eq!(s.color_mode, Some(ColorMode::Age));
}

#[test]
fn later_lines_win_and_unknown_mode_clears() {
    let s = parse_state(b"color_mode=Depth\nscan_root=/a\r\nscan_root=/b\ncolor_mode=Plaid");
    assert_eq!(s.scan_root, Some(b"/b".to_vec()));
    assert_eq!(s.color_mode, None);
    let t = parse_state(b"junk\ncolor_mode=Extension");
    assert_eq!(t.scan_root, None);
    assert_eq!(t.color_mode, Some(ColorMode::Extension));
}

#[test]
fn empty_state() {
    let s = parse_state(b"");
    assert!(s.scan_root.is_none() && s.color_mode.is_none());
    let d = PersistedState::default();
    assert!(d.scan_root.is_none() && d.color_mode.is_none());
}

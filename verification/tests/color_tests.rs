use mac_dir_stat::treemap::color::{age_color, age_color_at, extension_color, ColorMode, GradientPair, ONE_YEAR_SECS};
use std::time::{Duration, SystemTime};

#[test]
fn test_extension_color_deterministic() {
    let c1 = extension_color("rs");
    let c2 = extension_color("rs");
    assert_eq!(c1.0, c2.0);
    assert_eq!(c1.1, c2.1);
}

#[test]
fn test_extension_color_different_extensions() {
    let rs = extension_color("rs");
    let txt = extension_color("txt");
    assert_ne!(rs.0, txt.0);
}

#[test]
fn test_extension_color_unknown() {
    let c = extension_color("");
    assert_eq!(c.0, [71, 85, 105, 255]);
    assert_eq!(c.1, [148, 163, 184, 255]);
}

#[test]
fn test_age_color_recent_is_warm() {
    let now = SystemTime::now();
    let c = age_color(now);
    assert!(c.0[0] > 150, "Recent file should be warm-toned, got r={}", c.0[0]);
}

#[test]
fn test_age_color_old_is_cool() {
    let old = SystemTime::now() - Duration::from_secs(365 * 24 * 3600 * 2);
    let c = age_color(old);
    assert!(c.0[2] > c.0[0], "Old file should be cool-toned");
}

#[test]
fn test_palette_has_enough_colors() {
    let exts = ["rs", "txt", "mov", "mp4", "dmg", "zip", "jpg", "png", "app", "pdf"];
    let colors: Vec<GradientPair> = exts.iter().map(|e| extension_color(e)).collect();
    let mut unique: Vec<[u8; 8]> = Vec::new();
    for c in colors.iter() {
        let mut key = [0u8; 8];
        key[..4].copy_from_slice(&c.0);
        key[4..].copy_from_slice(&c.1);
        if !unique.contains(&key) {
            unique.push(key);
        }
    }
    assert!(unique.len() >= 6, "Expected at least 6 unique colors, got {}", unique.len());
}

#[test]
fn reserved_extensions_have_their_own_colors() {
    assert_eq!(extension_color("__free_space__"), ([20, 22, 28, 255], [28, 30, 36, 255]));
    assert_eq!(extension_color("__skipped__"), ([60, 50, 38, 255], [88, 70, 50, 255]));
}

#[test]
fn extension_color_picks_palette_by_djb2() {
    // djb2("rs") = (5381 * 33 + 114) * 33 + 115 = 5863786; 5863786 % 10 = 6 (coral).
    assert_eq!(extension_color("rs"), ([212, 110, 110, 255], [240, 152, 152, 255]));
}

#[test]
fn age_gradient_end_points() {
    assert_eq!(age_color_at(0), ([219, 39, 119, 255], [244, 114, 182, 255]));
    assert_eq!(age_color_at(ONE_YEAR_SECS), ([49, 46, 129, 255], [79, 70, 229, 255]));
    assert_eq!(age_color_at(u64::MAX), ([49, 46, 129, 255], [79, 70, 229, 255]));
}

#[test]
fn age_gradient_half_way() {
    // Half a year: each channel half way, rounded down.
    let c = age_color_at(ONE_YEAR_SECS / 2);
    assert_eq!(c, ([134, 42, 124, 255], [161, 92, 205, 255]));
}

#[test]
fn color_modes_compare() {
    assert_eq!(ColorMode::Age, ColorMode::Age);
    assert_ne!(ColorMode::Depth, ColorMode::Extension);
}

#[test]
fn older_is_less_red_and_more_blue() {
    let ages = [0u64, 1_000, 5_000_000, 15_768_000, 31_535_999, 31_536_000, 90_000_000];
    for w in ages.windows(2) {
        let (a, b) = (age_color_at(w[0]), age_color_at(w[1]));
        assert!(b.0[0] <= a.0[0] && b.1[0] <= a.1[0]);
        assert!(a.0[2] <= b.0[2] && a.1[2] <= b.1[2]);
        assert_eq!(a.0[3], 255);
        assert_eq!(a.1[3], 255);
    }
    assert_eq!(age_color_at(90_000_000), ([49, 46, 129, 255], [79, 70, 229, 255]));
}

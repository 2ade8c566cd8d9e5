use mac_dir_stat::flywheel::{
    civil_from_unix, disabled, error_message, feedback_text, opt_out_text, pick_setting, resolve_config, rfc3339_from_secs,
    rfc3339_utc, same_text, stored_visitor_id, telemetry_opted_out, trim_space, trim_trailing_slashes, uuid_v4,
    Flywheel, MAX_ERROR_CHARS, TAXONOMY,
};
use std::collections::hash_map::RandomState;
use std::hash::{BuildHasher, Hasher};
use std::time::UNIX_EPOCH;

/// 16 bytes from two freshly seeded std hashers.
fn random_16() -> [u8; 16] {
    let mut out = [0u8; 16];
    for half in 0..2 {
        let mut h = RandomState::new().build_hasher();
        h.write_usize(half);
        out[half * 8..half * 8 + 8].copy_from_slice(&h.finish().to_le_bytes());
    }
    out
}

#[test]
fn uuid_v4_has_correct_shape_and_version() {
    let id = uuid_v4(random_16());
    assert_eq!(id.len(), 36);
    let parts: Vec<&str> = id.split('-').collect();
    assert_eq!(parts.len(), 5);
    assert_eq!(parts[0].len(), 8);
    assert_eq!(parts[1].len(), 4);
    assert_eq!(parts[2].len(), 4);
    assert_eq!(parts[3].len(), 4);
    assert_eq!(parts[4].len(), 12);
    // version nibble
    assert!(parts[2].starts_with('4'));
    // variant nibble is one of 8,9,a,b
    let v = parts[3].chars().next().unwrap();
    assert!(matches!(v, '8' | '9' | 'a' | 'b'));
    // hex only
    assert!(id.chars().all(|c| c.is_ascii_hexdigit() || c == '-'));
}

#[test]
fn uuids_are_unique() {
    let a = uuid_v4(random_16());
    let b = uuid_v4(random_16());
    assert_ne!(a, b);
}

#[test]
fn uuid_of_known_bytes() {
    let b = [0xffu8; 16];
    assert_eq!(uuid_v4(b), "ffffffff-ffff-4fff-bfff-ffffffffffff");
    let z = [0u8; 16];
    assert_eq!(uuid_v4(z), "00000000-0000-4000-8000-000000000000");
}

#[test]
fn rfc3339_epoch_is_correct() {
    assert_eq!(rfc3339_utc(UNIX_EPOCH), "1970-01-01T00:00:00Z");
}

#[test]
fn rfc3339_known_timestamp() {
    // 1_781_686_883 = 2026-06-17T09:01:23Z
    let t = UNIX_EPOCH + std::time::Duration::from_secs(1_781_686_883);
    assert_eq!(rfc3339_utc(t), "2026-06-17T09:01:23Z");
}

#[test]
fn civil_handles_leap_day() {
    // 2024-02-29T12:00:00Z = 1_709_208_000
    let (y, m, d, hh, mm, ss) = civil_from_unix(1_709_208_000);
    assert_eq!((y, m, d, hh, mm, ss), (2024, 2, 29, 12, 0, 0));
}

#[test]
fn civil_before_the_epoch() {
    // One second before the epoch is the last second of 1969.
    assert_eq!(civil_from_unix(-1), (1969, 12, 31, 23, 59, 59));
    // 2000-03-01 follows a leap day in a year divisible by 400.
    assert_eq!(civil_from_unix(951_868_800), (2000, 3, 1, 0, 0, 0));
    assert_eq!(civil_from_unix(951_782_400), (2000, 2, 29, 0, 0, 0));
    assert_eq!(rfc3339_from_secs(0), "1970-01-01T00:00:00Z");
}

#[test]
fn init_without_config_is_disabled() {
    // No FLYWHEEL_SUPABASE_* configuration.
    let fw = Flywheel::init("mac-dir-stat", None, false, || ("v".to_string(), "s".to_string()));
    assert!(!fw.is_enabled());
    assert_eq!(fw.visitor_id(), "");
    assert_eq!(fw.session_id(), "");
    assert_eq!(fw.app(), "mac-dir-stat");
}

#[test]
fn init_with_config_and_opt_out() {
    let cfg = Some(("https://x".to_string(), "k".to_string()));
    let on = Flywheel::init("app", cfg.clone(), false, || ("v".to_string(), "s".to_string()));
    assert!(on.is_enabled());
    assert_eq!(on.url(), "https://x");
    assert_eq!(on.key(), "k");
    assert_eq!(on.visitor_id(), "v");
    assert_eq!(on.session_id(), "s");
    let off = Flywheel::init("app", cfg, true, || ("v".to_string(), "s".to_string()));
    assert!(!off.is_enabled());
    assert_eq!(off.visitor_id(), "");
}

#[test]
fn refresh_enabled_mints_ids_once() {
    let mut fw = Flywheel::init("app", None, false, || ("a".to_string(), "b".to_string()));
    fw.refresh_enabled(Some(("u".to_string(), "k".to_string())), false, || ("v1".to_string(), "s1".to_string()));
    assert!(fw.is_enabled());
    assert_eq!(fw.visitor_id(), "v1");
    assert_eq!(fw.url(), "u");
    fw.refresh_enabled(Some(("u2".to_string(), "k2".to_string())), false, || ("v2".to_string(), "s2".to_string()));
    assert_eq!(fw.visitor_id(), "v1");
    assert_eq!(fw.url(), "u");
    fw.refresh_enabled(Some(("u".to_string(), "k".to_string())), true, || ("v3".to_string(), "s3".to_string()));
    assert!(!fw.is_enabled());
}

#[test]
fn disabled_client_is_off() {
    let fw = disabled();
    assert!(!fw.is_enabled());
    assert_eq!(fw.url(), "");
}

#[test]
fn taxonomy_matches_ts_client() {
    assert!(TAXONOMY.contains(&"conversion"));
    assert!(TAXONOMY.contains(&"feedback_given"));
    assert!(TAXONOMY.contains(&"error"));
    assert_eq!(TAXONOMY.len(), 7);
}

#[test]
fn trims_like_std() {
    assert_eq!(trim_space("  id-1 \n"), "id-1");
    assert_eq!(trim_space("\u{3000}\tx y\u{a0}"), "x y");
    assert_eq!(trim_space(" \r\n "), "");
    assert_eq!(trim_space(""), "");
    assert_eq!(trim_trailing_slashes("https://x.co///"), "https://x.co");
    assert_eq!(trim_trailing_slashes("///"), "");
    assert_eq!(trim_trailing_slashes("a/b"), "a/b");
    assert!(same_text("héllo", "héllo"));
    assert!(!same_text("héllo", "hello"));
}

#[test]
fn settings_prefer_runtime_then_build() {
    assert_eq!(pick_setting(Some("a".to_string()), Some("b")), Some("a".to_string()));
    assert_eq!(pick_setting(Some(String::new()), Some("b")), Some("b".to_string()));
    assert_eq!(pick_setting(None, Some("")), None);
    assert_eq!(pick_setting(None, None), None);
    assert_eq!(
        resolve_config(Some("https://p.supabase.co/".to_string()), None, None, Some("k")),
        Some(("https://p.supabase.co".to_string(), "k".to_string()))
    );
    assert_eq!(resolve_config(Some("u".to_string()), None, Some(String::new()), None), None);
    assert_eq!(resolve_config(None, None, Some("k".to_string()), None), None);
}

#[test]
fn opt_out_by_variable_or_saved_choice() {
    assert!(telemetry_opted_out(Some("1"), None));
    assert!(telemetry_opted_out(Some("true"), Some("enabled")));
    assert!(telemetry_opted_out(Some("yes"), None));
    assert!(!telemetry_opted_out(Some("YES"), None));
    assert!(!telemetry_opted_out(Some("0"), None));
    assert!(telemetry_opted_out(None, Some(" disabled\n")));
    assert!(!telemetry_opted_out(None, Some("enabled")));
    assert!(!telemetry_opted_out(None, None));
}

#[test]
fn saved_choice_reads_back() {
    for choice in [true, false] {
        assert_eq!(telemetry_opted_out(None, Some(opt_out_text(choice))), choice);
    }
    assert_eq!(opt_out_text(true), "disabled");
    assert_eq!(opt_out_text(false), "enabled");
}

#[test]
fn visitor_id_from_file() {
    assert_eq!(stored_visitor_id("  abc-123\n"), Some("abc-123".to_string()));
    assert_eq!(stored_visitor_id(" \n"), None);
}

#[test]
fn error_messages_cut_at_500_chars() {
    assert_eq!(MAX_ERROR_CHARS, 500);
    assert_eq!(error_message("short"), "short");
    let long: String = "é".repeat(600);
    let cut = error_message(&long);
    assert_eq!(cut.chars().count(), 500);
    assert_eq!(cut, "é".repeat(500));
}

#[test]
fn endpoint_only_when_on() {
    let fw = Flywheel::init(
        "app",
        Some(("https://x.co".to_string(), "k".to_string())),
        false,
        || ("v".to_string(), "s".to_string()),
    );
    assert_eq!(fw.endpoint("events"), Some("https://x.co/rest/v1/events".to_string()));
    let off = Flywheel::init("app", Some(("https://x.co".to_string(), "k".to_string())), true, || {
        ("v".to_string(), "s".to_string())
    });
    assert_eq!(off.endpoint("events"), None);
    assert_eq!(disabled().app(), "mac-dir-stat");
}

#[test]
fn rfc3339_years_outside_four_digits() {
    assert_eq!(rfc3339_from_secs(-62_167_219_200), "0000-01-01T00:00:00Z");
    assert_eq!(rfc3339_from_secs(-62_167_219_200 - 86_400), "-001-12-31T00:00:00Z");
    assert_eq!(rfc3339_from_secs(253_402_300_800), "10000-01-01T00:00:00Z");
    assert_eq!(rfc3339_from_secs(-1), "1969-12-31T23:59:59Z");
}

#[test]
fn feedback_text_trimmed_or_left_out() {
    assert_eq!(feedback_text("  more sorting options \n"), Some("more sorting options"));
    assert_eq!(feedback_text(" \t "), None);
    assert_eq!(feedback_text(""), None);
}

#[test]
fn uuid_differs_when_a_random_bit_differs() {
    let a = [0u8; 16];
    let mut b = a;
    b[15] = 1;
    assert_ne!(uuid_v4(a), uuid_v4(b));
    let mut c = a;
    c[6] = 0x01;
    assert_ne!(uuid_v4(a), uuid_v4(c));
    let mut d = a;
    d[6] = 0x40;
    assert_eq!(uuid_v4(a), uuid_v4(d));
}

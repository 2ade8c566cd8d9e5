//! Heuristic detection of "safe to delete" directories: caches, build
//! artifacts, simulators and similar regenerable data, surfaced as cleanup
//! opportunities.

use vstd::prelude::*;
use vstd::string::StringSliceAdditionalSpecFns;
use vstd::utf8::encode_utf8;
use crate::paths::{bytes_end_with, bytes_eq, ends_with, file_name, file_name_of, to_vec};
use crate::scanner::tree::{FileTree, NodeId};
use crate::sorting::{desc_key, is_key_order, key_before, order_by_keys};
use crate::text::{lossy_utf8, utf8_lossy};
use crate::flywheel::same_text;
use std::collections::HashSet;

verus! {

/// A directory that matches a cleanup rule and is worth reporting.
#[derive(Debug, Clone)]
pub struct CleanupCandidate {
    pub node_id: NodeId,
    /// Full path of the directory, as bytes.
    pub path: Vec<u8>,
    pub category: &'static str,
    pub description: &'static str,
    pub size: u64,
}

/// Rules that match the end of the whole path: (suffix, category,
/// description), tried in order.
pub open spec fn suffix_rules() -> Seq<(&'static str, &'static str, &'static str)> {
    seq![
        ("Library/Developer/Xcode/DerivedData", "Xcode DerivedData", "Xcode rebuilds these on demand. Safe to delete."),
        ("Library/Developer/Xcode/iOS DeviceSupport", "iOS DeviceSupport", "Symbols for past iOS device versions. Xcode re-downloads on demand."),
        ("Library/Developer/Xcode/watchOS DeviceSupport", "watchOS DeviceSupport", "Symbols for past watchOS device versions. Xcode re-downloads on demand."),
        ("Library/Developer/Xcode/Archives", "Xcode Archives", "Past app build archives. Useful only if you still need symbolication for shipped builds."),
        ("Library/Developer/CoreSimulator/Caches", "Simulator Caches", "Cached simulator runtimes. Recreated as needed."),
        ("Library/Developer/CoreSimulator/Devices", "iOS / watchOS Simulators", "Simulators recreate on first launch. Drops local sim data and installed sim apps."),
        ("Library/Developer/Xcode/UserData/Previews", "SwiftUI Previews", "Cached preview renderings. Xcode regenerates them."),
        ("Library/Caches", "Application Caches", "Apps regenerate caches as needed. Only obviously safe ones; don't worry — your data isn't here."),
        ("Library/Logs", "Application Logs", "Historical log files. Removing them clears app diagnostics history."),
        ("Library/Containers/com.docker.docker", "Docker Desktop Data", "Docker images, volumes, build cache. Prefer `docker system prune -a` for finer-grained cleanup."),
        ("Library/Containers/com.apple.iCloud.iCloudDrive", "iCloud Drive evictable cache", "Local cache of iCloud-stored files. Files reload from iCloud on next access."),
        (".cargo/registry", "Cargo registry cache", "Downloaded Rust crate sources. Re-fetched on next `cargo build`."),
        (".rustup/toolchains", "Rustup toolchains", "Previously-installed Rust toolchains. Reinstall via `rustup` if needed."),
    ]
}

/// Rules that match the last component of the path exactly: (name,
/// category, description).
pub open spec fn name_rules() -> Seq<(&'static str, &'static str, &'static str)> {
    seq![
        ("node_modules", "node_modules", "Run `npm install` (or pnpm/yarn) to restore. Heavy on small files."),
        ("__pycache__", "Python __pycache__", "Compiled bytecode caches; Python regenerates on next import."),
        (".pytest_cache", ".pytest_cache", "pytest cache dir; safe to delete."),
        (".gradle", "Gradle caches", "Gradle redownloads dependencies on next build."),
        (".m2", "Maven local repo", "Maven local artifacts cache; rebuilt on next dependency resolve."),
        ("DerivedData", "DerivedData (loose)", "Xcode build artifacts found outside the standard location."),
        ("target", "Rust target/", "`cargo build` recreates these. Often the largest single dir on a Rust dev machine."),
        (".next", ".next/", "Next.js build output. Regenerated on `next build`."),
        (".turbo", ".turbo/", "Turborepo cache. Refilled on next build."),
        (".cache", ".cache directories", "App- and tool-specific caches. Generally regenerable."),
        (".Trash", "Trash", "Files in the macOS Trash. Empty when you're sure you don't need them."),
        (".Trashes", "Trash", "Files in the macOS Trash. Empty when you're sure you don't need them."),
    ]
}

/// The first rule from index `k` on whose suffix ends `text`.
pub open spec fn first_suffix(
    text: Seq<u8>,
    rules: Seq<(&'static str, &'static str, &'static str)>,
    k: int,
) -> Option<(&'static str, &'static str)>
    decreases rules.len() - k,
{
    if k < 0 || k >= rules.len() {
        None
    } else if ends_with(text, rules[k].0.spec_bytes()) {
        Some((rules[k].1, rules[k].2))
    } else {
        first_suffix(text, rules, k + 1)
    }
}

/// The first rule from index `k` on whose name is `name`.
pub open spec fn first_name(
    name: Seq<u8>,
    rules: Seq<(&'static str, &'static str, &'static str)>,
    k: int,
) -> Option<(&'static str, &'static str)>
    decreases rules.len() - k,
{
    if k < 0 || k >= rules.len() {
        None
    } else if name == rules[k].0.spec_bytes() {
        Some((rules[k].1, rules[k].2))
    } else {
        first_name(name, rules, k + 1)
    }
}

/// The (category, description) of a path: the first suffix rule that the
/// end of its text (decoded lossily) matches; failing that, the name rule
/// for its last component.
pub open spec fn classification(path: Seq<u8>) -> Option<(&'static str, &'static str)> {
    match first_suffix(encode_utf8(lossy_utf8(path)), suffix_rules(), 0) {
        Some(r) => Some(r),
        None => match file_name_of(path) {
            Some(name) => first_name(name, name_rules(), 0),
            None => None,
        },
    }
}

fn suffix_table() -> (r: Vec<(&'static str, &'static str, &'static str)>)
    ensures
        r@ == suffix_rules(),
{
    let r = vec![
        ("Library/Developer/Xcode/DerivedData", "Xcode DerivedData", "Xcode rebuilds these on demand. Safe to delete."),
        ("Library/Developer/Xcode/iOS DeviceSupport", "iOS DeviceSupport", "Symbols for past iOS device versions. Xcode re-downloads on demand."),
        ("Library/Developer/Xcode/watchOS DeviceSupport", "watchOS DeviceSupport", "Symbols for past watchOS device versions. Xcode re-downloads on demand."),
        ("Library/Developer/Xcode/Archives", "Xcode Archives", "Past app build archives. Useful only if you still need symbolication for shipped builds."),
        ("Library/Developer/CoreSimulator/Caches", "Simulator Caches", "Cached simulator runtimes. Recreated as needed."),
        ("Library/Developer/CoreSimulator/Devices", "iOS / watchOS Simulators", "Simulators recreate on first launch. Drops local sim data and installed sim apps."),
        ("Library/Developer/Xcode/UserData/Previews", "SwiftUI Previews", "Cached preview renderings. Xcode regenerates them."),
        ("Library/Caches", "Application Caches", "Apps regenerate caches as needed. Only obviously safe ones; don't worry — your data isn't here."),
        ("Library/Logs", "Application Logs", "Historical log files. Removing them clears app diagnostics history."),
        ("Library/Containers/com.docker.docker", "Docker Desktop Data", "Docker images, volumes, build cache. Prefer `docker system prune -a` for finer-grained cleanup."),
        ("Library/Containers/com.apple.iCloud.iCloudDrive", "iCloud Drive evictable cache", "Local cache of iCloud-stored files. Files reload from iCloud on next access."),
        (".cargo/registry", "Cargo registry cache", "Downloaded Rust crate sources. Re-fetched on next `cargo build`."),
        (".rustup/toolchains", "Rustup toolchains", "Previously-installed Rust toolchains. Reinstall via `rustup` if needed."),
    ];
    assert(r@ =~= suffix_rules());
    r
}

fn name_table() -> (r: Vec<(&'static str, &'static str, &'static str)>)
    ensures
        r@ == name_rules(),
{
    let r = vec![
        ("node_modules", "node_modules", "Run `npm install` (or pnpm/yarn) to restore. Heavy on small files."),
        ("__pycache__", "Python __pycache__", "Compiled bytecode caches; Python regenerates on next import."),
        (".pytest_cache", ".pytest_cache", "pytest cache dir; safe to delete."),
        (".gradle", "Gradle caches", "Gradle redownloads dependencies on next build."),
        (".m2", "Maven local repo", "Maven local artifacts cache; rebuilt on next dependency resolve."),
        ("DerivedData", "DerivedData (loose)", "Xcode build artifacts found outside the standard location."),
        ("target", "Rust target/", "`cargo build` recreates these. Often the largest single dir on a Rust dev machine."),
        (".next", ".next/", "Next.js build output. Regenerated on `next build`."),
        (".turbo", ".turbo/", "Turborepo cache. Refilled on next build."),
        (".cache", ".cache directories", "App- and tool-specific caches. Generally regenerable."),
        (".Trash", "Trash", "Files in the macOS Trash. Empty when you're sure you don't need them."),
        (".Trashes", "Trash", "Files in the macOS Trash. Empty when you're sure you don't need them."),
    ];
    assert(r@ =~= name_rules());
    r
}

/// Returns (category, description) when the path matches a known cleanup
/// pattern: a location-specific suffix of the whole path first, then the
/// bare name of its last component.
pub fn classify(path: &[u8]) -> (r: Option<(&'static str, &'static str)>)
    ensures
        r == classification(path@),
{
    let s = utf8_lossy(path);
    let text = s.as_str().as_bytes();
    let rules = suffix_table();
    let mut i: usize = 0;
    while i < rules.len()
        invariant
            rules@ == suffix_rules(),
            text@ == encode_utf8(lossy_utf8(path@)),
            i <= rules@.len(),
            first_suffix(text@, rules@, 0) == first_suffix(text@, rules@, i as int),
        decreases rules@.len() - i,
    {
        let rule = rules[i];
        if bytes_end_with(text, rule.0.as_bytes()) {
            return Some((rule.1, rule.2));
        }
        i = i + 1;
    }
    match file_name(path) {
        Some(name) => {
            let names = name_table();
            let mut j: usize = 0;
            while j < names.len()
                invariant
                    names@ == name_rules(),
                    first_suffix(encode_utf8(lossy_utf8(path@)), suffix_rules(), 0) is None,
                    file_name_of(path@) == Some(name@),
                    j <= names@.len(),
                    first_name(name@, names@, 0) == first_name(name@, names@, j as int),
                decreases names@.len() - j,
            {
                let rule = names[j];
                if bytes_eq(name.as_slice(), rule.0.as_bytes()) {
                    return Some((rule.1, rule.2));
                }
                j = j + 1;
            }
            None
        },
        None => None,
    }
}


/// The location rules, first match wins: the category and description
/// for how the text of a path ends.
pub open spec fn location_rule(text: Seq<u8>) -> Option<(&'static str, &'static str)> {
    if ends_with(text, "Library/Developer/Xcode/DerivedData".spec_bytes()) {
        Some(("Xcode DerivedData", "Xcode rebuilds these on demand. Safe to delete."))
    }     else if ends_with(text, "Library/Developer/Xcode/iOS DeviceSupport".spec_bytes()) {
        Some(("iOS DeviceSupport", "Symbols for past iOS device versions. Xcode re-downloads on demand."))
    }     else if ends_with(text, "Library/Developer/Xcode/watchOS DeviceSupport".spec_bytes()) {
        Some(("watchOS DeviceSupport", "Symbols for past watchOS device versions. Xcode re-downloads on demand."))
    }     else if ends_with(text, "Library/Developer/Xcode/Archives".spec_bytes()) {
        Some(("Xcode Archives", "Past app build archives. Useful only if you still need symbolication for shipped builds."))
    }     else if ends_with(text, "Library/Developer/CoreSimulator/Caches".spec_bytes()) {
        Some(("Simulator Caches", "Cached simulator runtimes. Recreated as needed."))
    }     else if ends_with(text, "Library/Developer/CoreSimulator/Devices".spec_bytes()) {
        Some(("iOS / watchOS Simulators", "Simulators recreate on first launch. Drops local sim data and installed sim apps."))
    }     else if ends_with(text, "Library/Developer/Xcode/UserData/Previews".spec_bytes()) {
        Some(("SwiftUI Previews", "Cached preview renderings. Xcode regenerates them."))
    }     else if ends_with(text, "Library/Caches".spec_bytes()) {
        Some(("Application Caches", "Apps regenerate caches as needed. Only obviously safe ones; don't worry — your data isn't here."))
    }     else if ends_with(text, "Library/Logs".spec_bytes()) {
        Some(("Application Logs", "Historical log files. Removing them clears app diagnostics history."))
    }     else if ends_with(text, "Library/Containers/com.docker.docker".spec_bytes()) {
        Some(("Docker Desktop Data", "Docker images, volumes, build cache. Prefer `docker system prune -a` for finer-grained cleanup."))
    }     else if ends_with(text, "Library/Containers/com.apple.iCloud.iCloudDrive".spec_bytes()) {
        Some(("iCloud Drive evictable cache", "Local cache of iCloud-stored files. Files reload from iCloud on next access."))
    }     else if ends_with(text, ".cargo/registry".spec_bytes()) {
        Some(("Cargo registry cache", "Downloaded Rust crate sources. Re-fetched on next `cargo build`."))
    }     else if ends_with(text, ".rustup/toolchains".spec_bytes()) {
        Some(("Rustup toolchains", "Previously-installed Rust toolchains. Reinstall via `rustup` if needed."))
    } else {
        None
    }
}

/// The bare-name rules: the category and description for the exact name
/// of a path's last component.
pub open spec fn bare_name_rule(name: Seq<u8>) -> Option<(&'static str, &'static str)> {
    if name == "node_modules".spec_bytes() {
        Some(("node_modules", "Run `npm install` (or pnpm/yarn) to restore. Heavy on small files."))
    } else if name == "__pycache__".spec_bytes() {
        Some(("Python __pycache__", "Compiled bytecode caches; Python regenerates on next import."))
    } else if name == ".pytest_cache".spec_bytes() {
        Some((".pytest_cache", "pytest cache dir; safe to delete."))
    } else if name == ".gradle".spec_bytes() {
        Some(("Gradle caches", "Gradle redownloads dependencies on next build."))
    } else if name == ".m2".spec_bytes() {
        Some(("Maven local repo", "Maven local artifacts cache; rebuilt on next dependency resolve."))
    } else if name == "DerivedData".spec_bytes() {
        Some(("DerivedData (loose)", "Xcode build artifacts found outside the standard location."))
    } else if name == "target".spec_bytes() {
        Some(("Rust target/", "`cargo build` recreates these. Often the largest single dir on a Rust dev machine."))
    } else if name == ".next".spec_bytes() {
        Some((".next/", "Next.js build output. Regenerated on `next build`."))
    } else if name == ".turbo".spec_bytes() {
        Some((".turbo/", "Turborepo cache. Refilled on next build."))
    } else if name == ".cache".spec_bytes() {
        Some((".cache directories", "App- and tool-specific caches. Generally regenerable."))
    } else if name == ".Trash".spec_bytes() {
        Some(("Trash", "Files in the macOS Trash. Empty when you're sure you don't need them."))
    } else if name == ".Trashes".spec_bytes() {
        Some(("Trash", "Files in the macOS Trash. Empty when you're sure you don't need them."))
    } else {
        None
    }
}

/// Every path is classified by the location rules of [`location_rule`]
/// first, then by the bare-name rules of [`bare_name_rule`], each list in
/// its order.
pub proof fn lemma_classification_follows_rules(path: Seq<u8>)
    ensures
        classification(path) == match location_rule(encode_utf8(lossy_utf8(path))) {
            Some(r) => Some(r),
            None => match file_name_of(path) {
                Some(name) => bare_name_rule(name),
                None => None,
            },
        },
{
    lemma_location_rules(encode_utf8(lossy_utf8(path)));
    if let Some(name) = file_name_of(path) {
        lemma_bare_name_rules(name);
    }
}

proof fn lemma_location_rules(text: Seq<u8>)
    ensures
        first_suffix(text, suffix_rules(), 0) == location_rule(text),
{
    reveal_with_fuel(first_suffix, 14);
}

proof fn lemma_bare_name_rules(name: Seq<u8>)
    ensures
        first_name(name, name_rules(), 0) == bare_name_rule(name),
{
    reveal_with_fuel(first_name, 13);
}

/// The text of a path ends in one of the location suffixes.
pub open spec fn at_location_suffix(text: Seq<u8>) -> bool {
    location_rule(text) is Some
}

/// The bare-name rules: a path that ends in none of the location
/// suffixes and whose last component is exactly one of `node_modules`,
/// `__pycache__`, `.pytest_cache`, `.gradle`, `.m2`, `DerivedData`,
/// `target`, `.next`, `.turbo`, `.cache`, `.Trash` or `.Trashes` is
/// classified under that name's category, with its description.
pub proof fn lemma_bare_names_classify(path: Seq<u8>)
    requires
        !at_location_suffix(encode_utf8(lossy_utf8(path))),
    ensures
        file_name_of(path) == Some("node_modules".spec_bytes()) ==> classification(path) == Some(("node_modules", "Run `npm install` (or pnpm/yarn) to restore. Heavy on small files.")),
        file_name_of(path) == Some("__pycache__".spec_bytes()) ==> classification(path) == Some(("Python __pycache__", "Compiled bytecode caches; Python regenerates on next import.")),
        file_name_of(path) == Some(".pytest_cache".spec_bytes()) ==> classification(path) == Some((".pytest_cache", "pytest cache dir; safe to delete.")),
        file_name_of(path) == Some(".gradle".spec_bytes()) ==> classification(path) == Some(("Gradle caches", "Gradle redownloads dependencies on next build.")),
        file_name_of(path) == Some(".m2".spec_bytes()) ==> classification(path) == Some(("Maven local repo", "Maven local artifacts cache; rebuilt on next dependency resolve.")),
        file_name_of(path) == Some("DerivedData".spec_bytes()) ==> classification(path) == Some(("DerivedData (loose)", "Xcode build artifacts found outside the standard location.")),
        file_name_of(path) == Some("target".spec_bytes()) ==> classification(path) == Some(("Rust target/", "`cargo build` recreates these. Often the largest single dir on a Rust dev machine.")),
        file_name_of(path) == Some(".next".spec_bytes()) ==> classification(path) == Some((".next/", "Next.js build output. Regenerated on `next build`.")),
        file_name_of(path) == Some(".turbo".spec_bytes()) ==> classification(path) == Some((".turbo/", "Turborepo cache. Refilled on next build.")),
        file_name_of(path) == Some(".cache".spec_bytes()) ==> classification(path) == Some((".cache directories", "App- and tool-specific caches. Generally regenerable.")),
        file_name_of(path) == Some(".Trash".spec_bytes()) ==> classification(path) == Some(("Trash", "Files in the macOS Trash. Empty when you're sure you don't need them.")),
        file_name_of(path) == Some(".Trashes".spec_bytes()) ==> classification(path) == Some(("Trash", "Files in the macOS Trash. Empty when you're sure you don't need them.")),
{
    lemma_no_location_suffix(encode_utf8(lossy_utf8(path)));
    if file_name_of(path) == Some("node_modules".spec_bytes()) {
        lemma_bare_name_rule("node_modules".spec_bytes(), 0);
    }
    if file_name_of(path) == Some("__pycache__".spec_bytes()) {
        lemma_bare_name_rule("__pycache__".spec_bytes(), 1);
    }
    if file_name_of(path) == Some(".pytest_cache".spec_bytes()) {
        lemma_bare_name_rule(".pytest_cache".spec_bytes(), 2);
    }
    if file_name_of(path) == Some(".gradle".spec_bytes()) {
        lemma_bare_name_rule(".gradle".spec_bytes(), 3);
    }
    if file_name_of(path) == Some(".m2".spec_bytes()) {
        lemma_bare_name_rule(".m2".spec_bytes(), 4);
    }
    if file_name_of(path) == Some("DerivedData".spec_bytes()) {
        lemma_bare_name_rule("DerivedData".spec_bytes(), 5);
    }
    if file_name_of(path) == Some("target".spec_bytes()) {
        lemma_bare_name_rule("target".spec_bytes(), 6);
    }
    if file_name_of(path) == Some(".next".spec_bytes()) {
        lemma_bare_name_rule(".next".spec_bytes(), 7);
    }
    if file_name_of(path) == Some(".turbo".spec_bytes()) {
        lemma_bare_name_rule(".turbo".spec_bytes(), 8);
    }
    if file_name_of(path) == Some(".cache".spec_bytes()) {
        lemma_bare_name_rule(".cache".spec_bytes(), 9);
    }
    if file_name_of(path) == Some(".Trash".spec_bytes()) {
        lemma_bare_name_rule(".Trash".spec_bytes(), 10);
    }
    if file_name_of(path) == Some(".Trashes".spec_bytes()) {
        lemma_bare_name_rule(".Trashes".spec_bytes(), 11);
    }
}

/// The name of the `k`-th bare-name rule is matched by that rule.
proof fn lemma_bare_name_rule(name: Seq<u8>, k: int)
    requires
        0 <= k < name_rules().len(),
        name == name_rules()[k].0.spec_bytes(),
    ensures
        first_name(name, name_rules(), 0) == Some((name_rules()[k].1, name_rules()[k].2)),
{
    lemma_rule_name_bytes();
    let rules = name_rules();
    assert forall|j: int| 0 <= j < k implies name != (#[trigger] rules[j]).0.spec_bytes() by {
        let b = rules[j].0.spec_bytes();
        assert(b.len() != name.len() || b[0] != name[0] || b[1] != name[1]);
    }
    lemma_first_name_at(name, rules, k);
}

/// A text that ends in none of the location suffixes matches no suffix
/// rule.
proof fn lemma_no_location_suffix(text: Seq<u8>)
    requires
        !at_location_suffix(text),
    ensures
        first_suffix(text, suffix_rules(), 0) is None,
{
    lemma_location_rules(text);
}

/// A name matches the `k`-th rule first when it is that rule's name and
/// none of the earlier ones.
proof fn lemma_first_name_at(name: Seq<u8>, rules: Seq<(&'static str, &'static str, &'static str)>, k: int)
    requires
        0 <= k < rules.len(),
        name == rules[k].0.spec_bytes(),
        forall|j: int| 0 <= j < k ==> name != (#[trigger] rules[j]).0.spec_bytes(),
    ensures
        forall|i: int| 0 <= i <= k ==> #[trigger] first_name(name, rules, i) == Some((rules[k].1, rules[k].2)),
    decreases k,
{
    assert forall|i: int| 0 <= i <= k implies #[trigger] first_name(name, rules, i) == Some((rules[k].1, rules[k].2)) by {
        lemma_first_name_from(name, rules, k, i);
    }
}

proof fn lemma_first_name_from(name: Seq<u8>, rules: Seq<(&'static str, &'static str, &'static str)>, k: int, i: int)
    requires
        0 <= i <= k < rules.len(),
        name == rules[k].0.spec_bytes(),
        forall|j: int| 0 <= j < k ==> name != (#[trigger] rules[j]).0.spec_bytes(),
    ensures
        first_name(name, rules, i) == Some((rules[k].1, rules[k].2)),
    decreases k - i,
{
    if i < k {
        assert(name != rules[i].0.spec_bytes());
        lemma_first_name_from(name, rules, k, i + 1);
    }
}

/// The length and first two bytes of each bare rule name, which tell
/// them apart.
proof fn lemma_rule_name_bytes()
    ensures
        "node_modules".spec_bytes().len() == 12 && "node_modules".spec_bytes()[0] == 110u8 && "node_modules".spec_bytes()[1] == 111u8,
        "__pycache__".spec_bytes().len() == 11 && "__pycache__".spec_bytes()[0] == 95u8 && "__pycache__".spec_bytes()[1] == 95u8,
        ".pytest_cache".spec_bytes().len() == 13 && ".pytest_cache".spec_bytes()[0] == 46u8 && ".pytest_cache".spec_bytes()[1] == 112u8,
        ".gradle".spec_bytes().len() == 7 && ".gradle".spec_bytes()[0] == 46u8 && ".gradle".spec_bytes()[1] == 103u8,
        ".m2".spec_bytes().len() == 3 && ".m2".spec_bytes()[0] == 46u8 && ".m2".spec_bytes()[1] == 109u8,
        "DerivedData".spec_bytes().len() == 11 && "DerivedData".spec_bytes()[0] == 68u8 && "DerivedData".spec_bytes()[1] == 101u8,
        "target".spec_bytes().len() == 6 && "target".spec_bytes()[0] == 116u8 && "target".spec_bytes()[1] == 97u8,
        ".next".spec_bytes().len() == 5 && ".next".spec_bytes()[0] == 46u8 && ".next".spec_bytes()[1] == 110u8,
        ".turbo".spec_bytes().len() == 6 && ".turbo".spec_bytes()[0] == 46u8 && ".turbo".spec_bytes()[1] == 116u8,
        ".cache".spec_bytes().len() == 6 && ".cache".spec_bytes()[0] == 46u8 && ".cache".spec_bytes()[1] == 99u8,
        ".Trash".spec_bytes().len() == 6 && ".Trash".spec_bytes()[0] == 46u8 && ".Trash".spec_bytes()[1] == 84u8,
        ".Trashes".spec_bytes().len() == 8 && ".Trashes".spec_bytes()[0] == 46u8 && ".Trashes".spec_bytes()[1] == 84u8,
{
    assert("node_modules".spec_bytes().len() == 12 && "node_modules".spec_bytes()[0] == 110u8 && "node_modules".spec_bytes()[1] == 111u8) by {
        broadcast use vstd::string::is_ascii_spec_bytes;
        reveal_strlit("node_modules");
        assert(vstd::string::is_ascii("node_modules"));
    }
    assert("__pycache__".spec_bytes().len() == 11 && "__pycache__".spec_bytes()[0] == 95u8 && "__pycache__".spec_bytes()[1] == 95u8) by {
        broadcast use vstd::string::is_ascii_spec_bytes;
        reveal_strlit("__pycache__");
        assert(vstd::string::is_ascii("__pycache__"));
    }
    assert(".pytest_cache".spec_bytes().len() == 13 && ".pytest_cache".spec_bytes()[0] == 46u8 && ".pytest_cache".spec_bytes()[1] == 112u8) by {
        broadcast use vstd::string::is_ascii_spec_bytes;
        reveal_strlit(".pytest_cache");
        assert(vstd::string::is_ascii(".pytest_cache"));
    }
    assert(".gradle".spec_bytes().len() == 7 && ".gradle".spec_bytes()[0] == 46u8 && ".gradle".spec_bytes()[1] == 103u8) by {
        broadcast use vstd::string::is_ascii_spec_bytes;
        reveal_strlit(".gradle");
        assert(vstd::string::is_ascii(".gradle"));
    }
    assert(".m2".spec_bytes().len() == 3 && ".m2".spec_bytes()[0] == 46u8 && ".m2".spec_bytes()[1] == 109u8) by {
        broadcast use vstd::string::is_ascii_spec_bytes;
        reveal_strlit(".m2");
        assert(vstd::string::is_ascii(".m2"));
    }
    assert("DerivedData".spec_bytes().len() == 11 && "DerivedData".spec_bytes()[0] == 68u8 && "DerivedData".spec_bytes()[1] == 101u8) by {
        broadcast use vstd::string::is_ascii_spec_bytes;
        reveal_strlit("DerivedData");
        assert(vstd::string::is_ascii("DerivedData"));
    }
    assert("target".spec_bytes().len() == 6 && "target".spec_bytes()[0] == 116u8 && "target".spec_bytes()[1] == 97u8) by {
        broadcast use vstd::string::is_ascii_spec_bytes;
        reveal_strlit("target");
        assert(vstd::string::is_ascii("target"));
    }
    assert(".next".spec_bytes().len() == 5 && ".next".spec_bytes()[0] == 46u8 && ".next".spec_bytes()[1] == 110u8) by {
        broadcast use vstd::string::is_ascii_spec_bytes;
        reveal_strlit(".next");
        assert(vstd::string::is_ascii(".next"));
    }
    assert(".turbo".spec_bytes().len() == 6 && ".turbo".spec_bytes()[0] == 46u8 && ".turbo".spec_bytes()[1] == 116u8) by {
        broadcast use vstd::string::is_ascii_spec_bytes;
        reveal_strlit(".turbo");
        assert(vstd::string::is_ascii(".turbo"));
    }
    assert(".cache".spec_bytes().len() == 6 && ".cache".spec_bytes()[0] == 46u8 && ".cache".spec_bytes()[1] == 99u8) by {
        broadcast use vstd::string::is_ascii_spec_bytes;
        reveal_strlit(".cache");
        assert(vstd::string::is_ascii(".cache"));
    }
    assert(".Trash".spec_bytes().len() == 6 && ".Trash".spec_bytes()[0] == 46u8 && ".Trash".spec_bytes()[1] == 84u8) by {
        broadcast use vstd::string::is_ascii_spec_bytes;
        reveal_strlit(".Trash");
        assert(vstd::string::is_ascii(".Trash"));
    }
    assert(".Trashes".spec_bytes().len() == 8 && ".Trashes".spec_bytes()[0] == 46u8 && ".Trashes".spec_bytes()[1] == 84u8) by {
        broadcast use vstd::string::is_ascii_spec_bytes;
        reveal_strlit(".Trashes");
        assert(vstd::string::is_ascii(".Trashes"));
    }
}

/// Matches below 1 MiB are noise and are not reported.
pub const MIN_CANDIDATE_SIZE: u64 = 1048576;

/// The directories reported at or below node `i`, in depth-first order:
/// a live directory whose path matches a rule is reported when larger
/// than 1 MiB and is not searched further; one that matches no rule is
/// searched through its children.
pub open spec fn cleanup_hits(t: FileTree, i: int) -> Seq<NodeId>
    decreases t.len() - i, 1int, 0int,
{
    if 0 <= i < t.len() && t.alive_at(i) && t.at(i).spec_is_dir() {
        match classification(t.path_of(i)) {
            Some(_) => if t.at(i).size > MIN_CANDIDATE_SIZE {
                seq![i as NodeId]
            } else {
                Seq::empty()
            },
            None => cleanup_hits_kids(t, i, t.kids_of(i).len() as int),
        }
    } else {
        Seq::empty()
    }
}

/// The directories reported below the first `k` children of node `i`.
pub open spec fn cleanup_hits_kids(t: FileTree, i: int, k: int) -> Seq<NodeId>
    decreases t.len() - i, 0int, k,
{
    if 0 <= i < t.len() && 0 < k <= t.kids_of(i).len() {
        let c = t.kids_of(i)[k - 1] as int;
        cleanup_hits_kids(t, i, k - 1) + if i < c < t.len() {
            cleanup_hits(t, c)
        } else {
            Seq::empty()
        }
    } else {
        Seq::empty()
    }
}

/// `c` reports directory `id` of `t`: its path, size and classification.
pub open spec fn candidate_for(t: FileTree, c: CleanupCandidate, id: NodeId) -> bool {
    &&& c.node_id == id
    &&& c.path@ == t.path_of(id as int)
    &&& c.size == t.at(id as int).size
    &&& classification(t.path_of(id as int)) == Some((c.category, c.description))
}

/// Sort keys of the reported directories: largest first.
pub open spec fn hit_keys(t: FileTree, h: Seq<NodeId>) -> Seq<u128> {
    Seq::new(h.len(), |k: int| desc_key(t.at(h[k] as int).size))
}

fn walk(tree: &FileTree, id: NodeId, out: &mut Vec<CleanupCandidate>)
    requires
        tree.wf(),
        id < tree.len(),
    ensures
        final(out)@.len() == old(out)@.len() + cleanup_hits(*tree, id as int).len(),
        forall|k: int| 0 <= k < old(out)@.len() ==> #[trigger] final(out)@[k] == old(out)@[k],
        forall|k: int|
            0 <= k < cleanup_hits(*tree, id as int).len() ==> candidate_for(
                *tree,
                #[trigger] final(out)@[old(out)@.len() + k],
                cleanup_hits(*tree, id as int)[k],
            ),
    decreases tree.len() - id,
{
    let ghost h = cleanup_hits(*tree, id as int);
    if !tree.is_alive(id) {
        assert(h =~= Seq::<NodeId>::empty());
        return ;
    }
    let node = tree.node(id);
    if !node.is_dir() {
        assert(h =~= Seq::<NodeId>::empty());
        return ;
    }
    let path = tree.full_path(id);
    match classify(path.as_slice()) {
        Some((category, description)) => {
            let size = node.size;
            if size > MIN_CANDIDATE_SIZE {
                out.push(CleanupCandidate { node_id: id, path, category, description, size });
                assert(h =~= seq![id]);
            } else {
                assert(h =~= Seq::<NodeId>::empty());
            }
            return ;
        },
        None => {},
    }
    let children = node.children();
    let ghost base = out@;
    let mut j: usize = 0;
    assert(cleanup_hits_kids(*tree, id as int, 0) =~= Seq::<NodeId>::empty());
    while j < children.len()
        invariant
            tree.wf(),
            id < tree.len(),
            children@ == tree.kids_of(id as int),
            j <= children@.len(),
            out@.len() == base.len() + cleanup_hits_kids(*tree, id as int, j as int).len(),
            forall|k: int| 0 <= k < base.len() ==> #[trigger] out@[k] == base[k],
            forall|k: int|
                0 <= k < cleanup_hits_kids(*tree, id as int, j as int).len() ==> candidate_for(
                    *tree,
                    #[trigger] out@[base.len() + k],
                    cleanup_hits_kids(*tree, id as int, j as int)[k],
                ),
        decreases children@.len() - j,
    {
        let c = children[j];
        let ghost before = out@;
        let ghost pre = cleanup_hits_kids(*tree, id as int, j as int);
        proof {
            assert(tree.kids_of(id as int)[j as int] == c);
            assert(id < c < tree.len());
        }
        walk(tree, c, out);
        proof {
            let sub = cleanup_hits(*tree, c as int);
            assert(cleanup_hits_kids(*tree, id as int, j + 1) == pre + sub);
            assert forall|k: int| 0 <= k < base.len() implies #[trigger] out@[k] == base[k] by {
                assert(out@[k] == before[k]);
            }
            assert forall|k: int| 0 <= k < (pre + sub).len() implies candidate_for(
                *tree,
                #[trigger] out@[base.len() + k],
                (pre + sub)[k],
            ) by {
                if k < pre.len() {
                    assert(out@[base.len() + k] == before[base.len() + k]);
                } else {
                    assert(out@[before.len() + (k - pre.len())] == out@[base.len() + k]);
                }
            }
        }
        j = j + 1;
    }
}

/// Walks the tree once and returns every directory that matches a cleanup
/// rule and is larger than 1 MiB, largest first (equal sizes in walk
/// order). The walk does not descend into a matching directory.
pub fn find_candidates(tree: &FileTree, root: NodeId) -> (r: Vec<CleanupCandidate>)
    requires
        tree.wf(),
        root < tree.len(),
    ensures
        ({
            let h = cleanup_hits(*tree, root as int);
            &&& r@.len() == h.len()
            &&& exists|ord: Seq<usize>|
                is_key_order(hit_keys(*tree, h), ord) && forall|i: int|
                    0 <= i < r@.len() ==> candidate_for(*tree, #[trigger] r@[i], h[ord[i] as int])
        }),
{
    let ghost h = cleanup_hits(*tree, root as int);
    let mut found: Vec<CleanupCandidate> = Vec::new();
    walk(tree, root, &mut found);
    proof {
        assert forall|k: int| 0 <= k < h.len() implies candidate_for(*tree, #[trigger] found@[k], h[k]) by {
            assert(found@[0 + k] == found@[k]);
        }
    }
    let mut keys: Vec<u128> = Vec::new();
    let mut m: usize = 0;
    while m < found.len()
        invariant
            found@.len() == h.len(),
            forall|k: int| 0 <= k < h.len() ==> candidate_for(*tree, #[trigger] found@[k], h[k]),
            m <= found@.len(),
            keys@ == hit_keys(*tree, h).take(m as int),
        decreases found@.len() - m,
    {
        assert(candidate_for(*tree, found@[m as int], h[m as int]));
        keys.push((u64::MAX - found[m].size) as u128);
        assert(keys@ =~= hit_keys(*tree, h).take(m + 1));
        m = m + 1;
    }
    assert(keys@ =~= hit_keys(*tree, h));
    let order = order_by_keys(&keys);
    let mut r: Vec<CleanupCandidate> = Vec::new();
    let mut q: usize = 0;
    while q < order.len()
        invariant
            is_key_order(hit_keys(*tree, h), order@),
            keys@ == hit_keys(*tree, h),
            found@.len() == h.len(),
            forall|k: int| 0 <= k < h.len() ==> candidate_for(*tree, #[trigger] found@[k], h[k]),
            q <= order@.len(),
            r@.len() == q,
            forall|i: int| 0 <= i < q ==> candidate_for(*tree, #[trigger] r@[i], h[order@[i] as int]),
        decreases order@.len() - q,
    {
        let o = order[q];
        let e = &found[o];
        assert(candidate_for(*tree, found@[o as int], h[o as int]));
        r.push(
            CleanupCandidate {
                node_id: e.node_id,
                path: to_vec(e.path.as_slice()),
                category: e.category,
                description: e.description,
                size: e.size,
            },
        );
        q = q + 1;
    }
    r
}
/// The total size of a list of candidates.
pub open spec fn size_sum(c: Seq<CleanupCandidate>) -> int
    decreases c.len(),
{
    if c.len() == 0 {
        0
    } else {
        size_sum(c.drop_last()) + c.last().size
    }
}

/// The candidates whose node is in `sel`, in list order.
pub open spec fn picked(c: Seq<CleanupCandidate>, sel: Set<NodeId>) -> Seq<CleanupCandidate>
    decreases c.len(),
{
    if c.len() == 0 {
        c
    } else if sel.contains(c.last().node_id) {
        picked(c.drop_last(), sel).push(c.last())
    } else {
        picked(c.drop_last(), sel)
    }
}

/// The candidates of one category, in list order.
pub open spec fn of_category(c: Seq<CleanupCandidate>, category: Seq<char>) -> Seq<CleanupCandidate>
    decreases c.len(),
{
    if c.len() == 0 {
        c
    } else if c.last().category@ == category {
        of_category(c.drop_last(), category).push(c.last())
    } else {
        of_category(c.drop_last(), category)
    }
}

/// The nodes of the candidates picked in `selected`, in list order, and
/// their total size; `None` when the total overflows a `u64`.
pub fn selection(cands: &Vec<CleanupCandidate>, selected: &HashSet<NodeId>) -> (r: Option<(Vec<NodeId>, u64)>)
    ensures
        r is None <==> size_sum(picked(cands@, selected@)) > u64::MAX,
        r matches Some(p) ==> p.0@ == picked(cands@, selected@).map_values(|c: CleanupCandidate| c.node_id)
            && p.1 == size_sum(picked(cands@, selected@)),
{
    broadcast use vstd::std_specs::hash::group_hash_axioms;
    let ghost cs = cands@;
    let mut ids: Vec<NodeId> = Vec::new();
    let mut total: u64 = 0;
    let mut i: usize = 0;
    while i < cands.len()
        invariant
            cs == cands@,
            i <= cs.len(),
            ids@ == picked(cs.take(i as int), selected@).map_values(|c: CleanupCandidate| c.node_id),
            total == size_sum(picked(cs.take(i as int), selected@)),
        decreases cs.len() - i,
    {
        proof {
            lemma_picked_step(cs, selected@, i as int);
        }
        let c = &cands[i];
        if selected.contains(&c.node_id) {
            match total.checked_add(c.size) {
                Some(t) => total = t,
                None => {
                    proof {
                        lemma_sum_prefix(cs, selected@, i + 1);
                    }
                    return None;
                },
            }
            ids.push(c.node_id);
        }
        assert(ids@ =~= picked(cs.take(i + 1), selected@).map_values(|c: CleanupCandidate| c.node_id));
        i = i + 1;
    }
    assert(cs.take(cs.len() as int) =~= cs);
    Some((ids, total))
}

/// One more candidate: the picked list grows by it when it is picked.
proof fn lemma_picked_step(c: Seq<CleanupCandidate>, sel: Set<NodeId>, i: int)
    requires
        0 <= i < c.len(),
    ensures
        picked(c.take(i + 1), sel) == if sel.contains(c[i].node_id) {
            picked(c.take(i), sel).push(c[i])
        } else {
            picked(c.take(i), sel)
        },
        size_sum(picked(c.take(i + 1), sel)) == size_sum(picked(c.take(i), sel)) + if sel.contains(c[i].node_id) {
            c[i].size as int
        } else {
            0
        },
{
    let t = c.take(i + 1);
    assert(t.drop_last() =~= c.take(i));
    assert(t.last() == c[i]);
    if sel.contains(c[i].node_id) {
        let p = picked(c.take(i), sel);
        assert(p.push(c[i]).drop_last() =~= p);
    }
}

/// One more candidate: the category's list grows by it when it is of the
/// category.
proof fn lemma_category_step(c: Seq<CleanupCandidate>, category: Seq<char>, i: int)
    requires
        0 <= i < c.len(),
    ensures
        size_sum(of_category(c.take(i + 1), category)) == size_sum(of_category(c.take(i), category)) + if c[i].category@ == category {
            c[i].size as int
        } else {
            0
        },
{
    let t = c.take(i + 1);
    assert(t.drop_last() =~= c.take(i));
    assert(t.last() == c[i]);
    if c[i].category@ == category {
        let p = of_category(c.take(i), category);
        assert(p.push(c[i]).drop_last() =~= p);
    }
}

/// Sums over picked prefixes grow with the prefix.
proof fn lemma_sum_prefix(c: Seq<CleanupCandidate>, sel: Set<NodeId>, k: int)
    requires
        0 <= k <= c.len(),
    ensures
        size_sum(picked(c.take(k), sel)) <= size_sum(picked(c, sel)),
    decreases c.len() - k,
{
    if k < c.len() {
        lemma_sum_prefix(c, sel, k + 1);
        lemma_picked_step(c, sel, k);
    } else {
        assert(c.take(k) =~= c);
    }
}

/// The total size of the candidates in `category`; `None` when it
/// overflows a `u64`.
pub fn category_total(cands: &Vec<CleanupCandidate>, category: &str) -> (r: Option<u64>)
    ensures
        r is None <==> size_sum(of_category(cands@, category@)) > u64::MAX,
        r matches Some(t) ==> t == size_sum(of_category(cands@, category@)),
{
    let ghost cs = cands@;
    let mut total: u64 = 0;
    let mut i: usize = 0;
    while i < cands.len()
        invariant
            cs == cands@,
            i <= cs.len(),
            total == size_sum(of_category(cs.take(i as int), category@)),
        decreases cs.len() - i,
    {
        proof {
            lemma_category_step(cs, category@, i as int);
        }
        let c = &cands[i];
        if same_text(c.category, category) {
            match total.checked_add(c.size) {
                Some(t) => total = t,
                None => {
                    proof {
                        lemma_category_prefix(cs, category@, i + 1);
                    }
                    return None;
                },
            }
        }
        i = i + 1;
    }
    assert(cs.take(cs.len() as int) =~= cs);
    Some(total)
}

/// Sums over a category's prefixes grow with the prefix.
proof fn lemma_category_prefix(c: Seq<CleanupCandidate>, category: Seq<char>, k: int)
    requires
        0 <= k <= c.len(),
    ensures
        size_sum(of_category(c.take(k), category)) <= size_sum(of_category(c, category)),
    decreases c.len() - k,
{
    if k < c.len() {
        lemma_category_prefix(c, category, k + 1);
        lemma_category_step(c, category, k);
    } else {
        assert(c.take(k) =~= c);
    }
}

/// The total size of all candidates; `None` when it overflows a `u64`.
pub fn candidates_total(cands: &Vec<CleanupCandidate>) -> (r: Option<u64>)
    ensures
        r is None <==> size_sum(cands@) > u64::MAX,
        r matches Some(t) ==> t == size_sum(cands@),
{
    let ghost cs = cands@;
    let mut total: u64 = 0;
    let mut i: usize = 0;
    while i < cands.len()
        invariant
            cs == cands@,
            i <= cs.len(),
            total == size_sum(cs.take(i as int)),
        decreases cs.len() - i,
    {
        proof {
            lemma_total_step(cs, i as int);
        }
        match total.checked_add(cands[i].size) {
            Some(t) => total = t,
            None => {
                proof {
                    lemma_total_prefix(cs, i + 1);
                }
                return None;
            },
        }
        i = i + 1;
    }
    assert(cs.take(cs.len() as int) =~= cs);
    Some(total)
}

/// One more candidate adds its size.
proof fn lemma_total_step(c: Seq<CleanupCandidate>, i: int)
    requires
        0 <= i < c.len(),
    ensures
        size_sum(c.take(i + 1)) == size_sum(c.take(i)) + c[i].size,
{
    assert(c.take(i + 1).drop_last() =~= c.take(i));
}

/// Sums over prefixes grow with the prefix.
proof fn lemma_total_prefix(c: Seq<CleanupCandidate>, k: int)
    requires
        0 <= k <= c.len(),
    ensures
        size_sum(c.take(k)) <= size_sum(c),
    decreases c.len() - k,
{
    if k < c.len() {
        lemma_total_prefix(c, k + 1);
        lemma_total_step(c, k);
    } else {
        assert(c.take(k) =~= c);
    }
}

} // verus!

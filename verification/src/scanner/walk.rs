//! Decisions of the directory walk: what to skip, where an entry hangs in
//! the tree, and the synthetic nodes for a whole volume.

use std::time::SystemTime;
use vstd::prelude::*;
use vstd::string::StringSliceAdditionalSpecFns;
use vstd::utf8::encode_utf8;
use crate::clock::now;
use crate::scanner::tree::{appended, path_push, FileTree, NodeId, NodeKind};
use crate::text::{lossy_utf8, lowercase, to_lowercase, utf8_lossy};
use crate::paths::{bytes_eq, components, extension, extension_of, path_components, path_starts_with, starts_with, to_vec, SLASH};

verus! {

/// The path ends in a Photos library bundle (`.photoslibrary` or
/// `.photolibrary`).
pub open spec fn photos_library(path: Seq<u8>) -> bool {
    extension_of(path) == Some("photoslibrary".spec_bytes()) || extension_of(path) == Some(
        "photolibrary".spec_bytes(),
    )
}

/// Photos libraries are skipped whole.
pub fn is_photos_library(path: &[u8]) -> (b: bool)
    ensures
        b == photos_library(path@),
{
    match extension(path) {
        Some(e) => bytes_eq(e.as_slice(), "photoslibrary".as_bytes()) || bytes_eq(
            e.as_slice(),
            "photolibrary".as_bytes(),
        ),
        None => false,
    }
}

/// The path is the root `/`.
pub open spec fn is_root_path(p: Seq<u8>) -> bool {
    components(p) == seq![seq![SLASH]]
}

/// Whether the walk leaves `path` out: the APFS firmlinks under
/// `/System/Volumes`; `/Volumes` when scanning from `/`; anything under
/// one of `skips`; a Photos library.
pub open spec fn skipped(path: Seq<u8>, scan_root: Seq<u8>, skips: Seq<Seq<u8>>) -> bool {
    ||| path_starts_with(path, "/System/Volumes".spec_bytes())
    ||| (is_root_path(scan_root) && path_starts_with(path, "/Volumes".spec_bytes()))
    ||| (exists|i: int| 0 <= i < skips.len() && path_starts_with(path, #[trigger] skips[i]))
    ||| photos_library(path)
}

/// The skip list leaves out exactly what lies at or below one of its
/// paths: for a path not under `/System/Volumes`, not under `/Volumes`
/// when the scan starts at `/`, and not a Photos library, the walk skips
/// it exactly when the components of some skip path begin its own. An
/// ancestor of a skip path is not left out on that account.
pub proof fn lemma_skip_only_at_or_below(path: Seq<u8>, scan_root: Seq<u8>, skips: Seq<Seq<u8>>)
    requires
        !components("/System/Volumes".spec_bytes()).is_prefix_of(components(path)),
        !(is_root_path(scan_root) && components("/Volumes".spec_bytes()).is_prefix_of(components(path))),
        !photos_library(path),
    ensures
        skipped(path, scan_root, skips) <==> exists|i: int|
            0 <= i < skips.len() && components(#[trigger] skips[i]).is_prefix_of(components(path)),
{
    if skipped(path, scan_root, skips) {
        let i = choose|i: int| 0 <= i < skips.len() && path_starts_with(path, #[trigger] skips[i]);
        assert(components(skips[i]).is_prefix_of(components(path)));
    }
    if exists|i: int| 0 <= i < skips.len() && components(#[trigger] skips[i]).is_prefix_of(components(path)) {
        let i = choose|i: int| 0 <= i < skips.len() && components(#[trigger] skips[i]).is_prefix_of(components(path));
        assert(path_starts_with(path, skips[i]));
    }
}

/// The fixed rules always skip: whatever the skip list, the walk leaves
/// out everything at or below `/System/Volumes`, everything at or below
/// `/Volumes` when the scan starts at `/`, and every path whose extension
/// is `photoslibrary` or `photolibrary`.
pub proof fn lemma_fixed_skips(path: Seq<u8>, scan_root: Seq<u8>, skips: Seq<Seq<u8>>)
    ensures
        components("/System/Volumes".spec_bytes()).is_prefix_of(components(path)) ==> skipped(path, scan_root, skips),
        components(scan_root) == seq![seq![SLASH]] && components("/Volumes".spec_bytes()).is_prefix_of(
            components(path),
        ) ==> skipped(path, scan_root, skips),
        extension_of(path) == Some("photoslibrary".spec_bytes()) ==> skipped(path, scan_root, skips),
        extension_of(path) == Some("photolibrary".spec_bytes()) ==> skipped(path, scan_root, skips),
{
}

/// The views of a list of byte strings.
pub open spec fn views(v: Seq<Vec<u8>>) -> Seq<Seq<u8>> {
    Seq::new(v.len(), |i: int| v[i]@)
}

fn is_root(p: &[u8]) -> (b: bool)
    ensures
        b == is_root_path(p@),
{
    let c = path_components(p);
    if c.len() == 1 && c[0].len() == 1 && c[0][0] == SLASH {
        assert(components(p@)[0] =~= seq![SLASH]);
        assert(components(p@) =~= seq![seq![SLASH]]);
        true
    } else {
        proof {
            if components(p@) == seq![seq![SLASH]] {
                assert(c@[0]@ == seq![SLASH]);
            }
        }
        false
    }
}

/// Whether the walk leaves `path` out; see [`skipped`].
pub fn should_skip(path: &[u8], scan_root: &[u8], skip_paths: &[Vec<u8>]) -> (b: bool)
    ensures
        b == skipped(path@, scan_root@, views(skip_paths@)),
{
    if starts_with(path, "/System/Volumes".as_bytes()) {
        return true;
    }
    if is_root(scan_root) && starts_with(path, "/Volumes".as_bytes()) {
        return true;
    }
    let ghost skips = views(skip_paths@);
    let mut i: usize = 0;
    while i < skip_paths.len()
        invariant
            skips == views(skip_paths@),
            i <= skip_paths@.len(),
            forall|j: int| 0 <= j < i ==> !path_starts_with(path@, #[trigger] skips[j]),
        decreases skip_paths@.len() - i,
    {
        if starts_with(path, skip_paths[i].as_slice()) {
            assert(path_starts_with(path@, skips[i as int]));
            return true;
        }
        i = i + 1;
    }
    is_photos_library(path)
}


/// Paths skipped on every scan: the APFS firmlinks, which repeat the
/// whole file system, Time Machine local snapshots and installer
/// sandboxes.
pub open spec fn system_skips() -> Seq<&'static str> {
    seq![
        "/System/Volumes",
        "/.MobileBackups",
        "/.PKInstallSandboxManager",
        "/.PKInstallSandboxManager-SystemSoftware",
    ]
}

/// Folders under the home directory that macOS guards with a permission
/// prompt; the walk never enters them.
pub open spec fn protected_dirs() -> Seq<&'static str> {
    seq![
        "Library/Mail",
        "Library/Messages",
        "Library/Calendars",
        "Library/Reminders",
        "Library/Safari",
        "Library/Cookies",
        "Library/HomeKit",
        "Library/IdentityServices",
        "Library/Suggestions",
        "Library/PersonalizationPortrait",
        "Library/Sharing",
        "Library/Metadata/CoreSpotlight",
        "Library/CoreFollowUp",
        "Library/Application Support/AddressBook",
        "Library/Application Support/CallHistoryDB",
        "Library/Application Support/CallHistoryTransactions",
        "Library/Application Support/com.apple.TCC",
        "Library/Caches/com.apple.Safari",
        "Library/Containers/com.apple.mail",
    ]
}

/// The paths to skip: the system ones, then, when the home directory is
/// known, each protected folder joined onto it.
pub open spec fn skip_list(home: Option<Seq<u8>>) -> Seq<Seq<u8>> {
    let sys = Seq::new(system_skips().len(), |i: int| system_skips()[i].spec_bytes());
    match home {
        Some(h) => sys + Seq::new(
            protected_dirs().len(),
            |i: int| path_push(h, protected_dirs()[i].spec_bytes()),
        ),
        None => sys,
    }
}

/// `base` with `part` pushed onto it; see [`path_push`].
fn join_path(base: &[u8], part: &[u8]) -> (r: Vec<u8>)
    ensures
        r@ == path_push(base@, part@),
{
    if part.len() > 0 && part[0] == SLASH {
        return to_vec(part);
    }
    let mut r = to_vec(base);
    if base.len() > 0 && base[base.len() - 1] != SLASH {
        r.push(SLASH);
    }
    let mut i: usize = 0;
    let ghost start = r@;
    while i < part.len()
        invariant
            i <= part@.len(),
            r@ == start + part@.take(i as int),
        decreases part@.len() - i,
    {
        r.push(part[i]);
        assert(part@.take(i + 1) =~= part@.take(i as int).push(part@[i as int]));
        i = i + 1;
    }
    assert(part@.take(part@.len() as int) =~= part@);
    assert(r@ =~= path_push(base@, part@));
    r
}

/// The list of paths the walk skips before it lists them, which is what
/// keeps it from setting off permission prompts; `home` is the user's
/// home directory when it is known.
pub fn build_skip_paths(home: Option<&[u8]>) -> (r: Vec<Vec<u8>>)
    ensures
        views(r@) == skip_list(
            match home {
                Some(h) => Some(h@),
                None => None,
            },
        ),
{
    let sys: [&'static str; 4] = [
        "/System/Volumes",
        "/.MobileBackups",
        "/.PKInstallSandboxManager",
        "/.PKInstallSandboxManager-SystemSoftware",
    ];
    let subs: [&'static str; 19] = [
        "Library/Mail",
        "Library/Messages",
        "Library/Calendars",
        "Library/Reminders",
        "Library/Safari",
        "Library/Cookies",
        "Library/HomeKit",
        "Library/IdentityServices",
        "Library/Suggestions",
        "Library/PersonalizationPortrait",
        "Library/Sharing",
        "Library/Metadata/CoreSpotlight",
        "Library/CoreFollowUp",
        "Library/Application Support/AddressBook",
        "Library/Application Support/CallHistoryDB",
        "Library/Application Support/CallHistoryTransactions",
        "Library/Application Support/com.apple.TCC",
        "Library/Caches/com.apple.Safari",
        "Library/Containers/com.apple.mail",
    ];
    assert(sys@ =~= system_skips());
    assert(subs@ =~= protected_dirs());
    let ghost hv: Option<Seq<u8>> = match home {
        Some(h) => Some(h@),
        None => None,
    };
    let ghost sysv = Seq::new(system_skips().len(), |i: int| system_skips()[i].spec_bytes());
    let mut r: Vec<Vec<u8>> = Vec::new();
    let mut i: usize = 0;
    while i < 4
        invariant
            sys@ == system_skips(),
            sysv == Seq::new(system_skips().len(), |i: int| system_skips()[i].spec_bytes()),
            i <= 4,
            r@.len() == i,
            views(r@) == sysv.take(i as int),
        decreases 4 - i,
    {
        let b = sys[i].as_bytes();
        assert(b@ == sysv[i as int]);
        let ghost before = r@;
        r.push(to_vec(b));
        assert forall|k: int| 0 <= k < i implies #[trigger] r@[k]@ == sysv[k] by {
            assert(r@[k] == before[k]);
            assert(views(before)[k] == sysv.take(i as int)[k]);
        }
        assert(views(r@) =~= sysv.take(i + 1));
        i = i + 1;
    }
    assert(sysv.take(4) =~= sysv);
    assert(r@.len() == 4);
    if let Some(h) = home {
        let ghost prot = Seq::new(
            protected_dirs().len(),
            |i: int| path_push(h@, protected_dirs()[i].spec_bytes()),
        );
        let mut j: usize = 0;
        while j < 19
            invariant
                subs@ == protected_dirs(),
                prot == Seq::new(
                    protected_dirs().len(),
                    |i: int| path_push(h@, protected_dirs()[i].spec_bytes()),
                ),
                j <= 19,
                sysv.len() == 4,
                prot.len() == 19,
                r@.len() == 4 + j,
                views(r@) == sysv + prot.take(j as int),
            decreases 19 - j,
        {
            let b = join_path(h, subs[j].as_bytes());
            assert(b@ == prot[j as int]);
            let ghost before = r@;
            r.push(b);
            assert forall|k: int| 0 <= k < 4 + j implies #[trigger] r@[k]@ == (sysv + prot.take(j + 1))[k] by {
                assert(r@[k] == before[k]);
                assert(views(before)[k] == (sysv + prot.take(j as int))[k]);
            }
            assert(views(r@) =~= sysv + prot.take(j + 1));
            j = j + 1;
        }
        assert(prot.take(19) =~= prot);
    }
    r
}

/// The id of the first entry of `e`, from index `i` on, whose path has
/// the components `cs`.
pub open spec fn lookup_dir(e: Seq<(Vec<u8>, usize)>, cs: Seq<Seq<u8>>, i: int) -> Option<usize>
    decreases e.len() - i,
{
    if i < 0 || i >= e.len() {
        None
    } else if components(e[i].0@) == cs {
        Some(e[i].1)
    } else {
        lookup_dir(e, cs, i + 1)
    }
}

/// The fewest components a parent can have: the root of an absolute path
/// has no parent.
pub open spec fn fewest_parent_components(cs: Seq<Seq<u8>>) -> int {
    if cs.len() > 0 && cs[0] == seq![SLASH] {
        1
    } else {
        0
    }
}

/// The entry of the nearest ancestor whose components are the first `k`
/// of `cs`, or fewer, as `Path::parent` walks up.
pub open spec fn closest_from(e: Seq<(Vec<u8>, usize)>, cs: Seq<Seq<u8>>, k: int) -> Option<usize>
    decreases k + 1,
{
    if k < fewest_parent_components(cs) || k < 0 {
        None
    } else {
        match lookup_dir(e, cs.take(k), 0) {
            Some(id) => Some(id),
            None => closest_from(e, cs, k - 1),
        }
    }
}

/// The first `len` components in `cs` are those of `a`.
fn components_match(a: &Vec<Vec<u8>>, cs: &Vec<Vec<u8>>, len: usize) -> (r: bool)
    requires
        len <= cs@.len(),
    ensures
        r == (views(a@) == views(cs@).take(len as int)),
{
    if a.len() != len {
        assert(views(a@).len() != views(cs@).take(len as int).len());
        return false;
    }
    let mut i: usize = 0;
    while i < len
        invariant
            a@.len() == len,
            len <= cs@.len(),
            i <= len,
            forall|j: int| 0 <= j < i ==> a@[j]@ == cs@[j]@,
        decreases len - i,
    {
        if !bytes_eq(a[i].as_slice(), cs[i].as_slice()) {
            assert(views(a@)[i as int] != views(cs@).take(len as int)[i as int]);
            return false;
        }
        i = i + 1;
    }
    assert(views(a@) =~= views(cs@).take(len as int));
    true
}

/// The node id of the closest ancestor of `path` that `dir_map` lists,
/// walking up parent by parent; paths are compared by components.
pub fn find_closest_ancestor(dir_map: &[(Vec<u8>, usize)], path: &[u8]) -> (r: Option<usize>)
    ensures
        r == closest_from(dir_map@, components(path@), components(path@).len() - 1),
{
    let cs = path_components(path);
    let ghost gcs = components(path@);
    proof {
        assert(views(cs@) =~= gcs);
    }
    let mut ecs: Vec<Vec<Vec<u8>>> = Vec::new();
    let mut m: usize = 0;
    while m < dir_map.len()
        invariant
            m <= dir_map@.len(),
            ecs@.len() == m,
            forall|j: int| 0 <= j < m ==> views(#[trigger] ecs@[j]@) == components(dir_map@[j].0@),
        decreases dir_map@.len() - m,
    {
        let c = path_components(dir_map[m].0.as_slice());
        assert(views(c@) =~= components(dir_map@[m as int].0@));
        ecs.push(c);
        m = m + 1;
    }
    let low: usize = if cs.len() > 0 && cs[0].len() == 1 && cs[0][0] == SLASH {
        assert(gcs[0] =~= seq![SLASH]);
        1
    } else {
        proof {
            if gcs.len() > 0 && gcs[0] == seq![SLASH] {
                assert(cs@[0]@ == seq![SLASH]);
            }
        }
        0
    };
    assert(low == fewest_parent_components(gcs));
    let mut k: usize = cs.len();
    while k > low
        invariant
            views(cs@) == gcs,
            gcs == components(path@),
            low == fewest_parent_components(gcs),
            k <= cs@.len(),
            ecs@.len() == dir_map@.len(),
            forall|j: int| 0 <= j < ecs@.len() ==> views(#[trigger] ecs@[j]@) == components(dir_map@[j].0@),
            closest_from(dir_map@, gcs, gcs.len() - 1) == closest_from(dir_map@, gcs, k - 1),
        decreases k,
    {
        let cand = k - 1;
        let ghost want = gcs.take(cand as int);
        let mut i: usize = 0;
        while i < dir_map.len()
            invariant
                views(cs@) == gcs,
                cand < cs@.len(),
                want == gcs.take(cand as int),
                ecs@.len() == dir_map@.len(),
                forall|j: int| 0 <= j < ecs@.len() ==> views(#[trigger] ecs@[j]@) == components(dir_map@[j].0@),
                i <= dir_map@.len(),
                lookup_dir(dir_map@, want, 0) == lookup_dir(dir_map@, want, i as int),
                low == fewest_parent_components(gcs),
                gcs == components(path@),
                low <= cand,
                closest_from(dir_map@, gcs, gcs.len() - 1) == closest_from(dir_map@, gcs, cand as int),
            decreases dir_map@.len() - i,
        {
            if components_match(&ecs[i], &cs, cand) {
                assert(components(dir_map@[i as int].0@) == want);
                assert(lookup_dir(dir_map@, want, i as int) == Some(dir_map@[i as int].1));
                assert(closest_from(dir_map@, gcs, cand as int) == Some(dir_map@[i as int].1));
                return Some(dir_map[i].1);
            }
            i = i + 1;
        }
        k = k - 1;
    }
    None
}

/// The depth of an entry below the scan root: how many more components
/// its path has, 0 when it has no more, cut to 16 bits.
pub open spec fn entry_depth(path: Seq<u8>, root: Seq<u8>) -> u16 {
    let d = components(path).len() - components(root).len();
    (if d > 0 {
        d
    } else {
        0
    }) as u16
}

/// How a file's extension is recorded: its text, decoded lossily and
/// lowercased, as UTF-8 bytes.
pub open spec fn recorded_extension(path: Seq<u8>) -> Option<Seq<u8>> {
    match extension_of(path) {
        Some(e) => Some(encode_utf8(lowercase(lossy_utf8(e)))),
        None => None,
    }
}

/// Adds the walked entry at `path` (last component `name`) under
/// `parent`: a directory, expanded while shallower than 2, or a file of
/// `size` bytes with its extension lowercased. Returns its id.
pub fn record_entry(
    tree: &mut FileTree,
    parent: NodeId,
    path: &[u8],
    root: &[u8],
    name: &[u8],
    is_dir: bool,
    size: u64,
    modified: SystemTime,
) -> (id: NodeId)
    requires
        old(tree).wf(),
        parent < old(tree).len(),
    ensures
        final(tree).wf(),
        appended(*old(tree), *final(tree), parent, id),
        final(tree).at(id as int).depth == entry_depth(path@, root@),
        final(tree).at(id as int).modified == modified,
        final(tree).at(id as int).spec_is_dir() == is_dir,
        is_dir ==> final(tree).at(id as int).size == 0,
        is_dir ==> (final(tree).at(id as int).kind matches NodeKind::Directory { expanded, .. } && expanded
            == (entry_depth(path@, root@) < 2)),
        !is_dir ==> final(tree).at(id as int).size == size,
        !is_dir ==> (final(tree).at(id as int).ext_ref() is None <==> recorded_extension(path@) is None),
        final(tree).arena().bytes() == old(tree).arena().bytes() + name@ + if !is_dir && recorded_extension(path@) is Some {
            recorded_extension(path@)->0
        } else {
            Seq::<u8>::empty()
        },
        final(tree).at(id as int).name.start() == (old(tree).arena().bytes().len() as u32) as nat,
        final(tree).at(id as int).name.count() == (name@.len() as u32) as nat,
        !is_dir ==> (recorded_extension(path@) matches Some(e) ==> final(tree).at(id as int).ext_ref() matches Some(r)
            && r.start() == ((old(tree).arena().bytes().len() + name@.len()) as u32) as nat
            && r.count() == (e.len() as u32) as nat),
        final(tree).arena().bytes().len() <= u32::MAX ==> final(tree).name_of(id as int) == name@,
        final(tree).arena().bytes().len() <= u32::MAX && !is_dir ==> (recorded_extension(path@) matches Some(e)
            ==> final(tree).at(id as int).ext_ref() matches Some(r) && final(tree).arena().slice(r) == e),
{
    let pc = path_components(path).len();
    let rc = path_components(root).len();
    let d: usize = if pc > rc {
        pc - rc
    } else {
        0
    };
    let depth = d as u16;
    if is_dir {
        let id = tree.add_dir(parent, name, depth < 2, modified, depth);
        assert(tree.arena().bytes() =~= old(tree).arena().bytes() + name@ + Seq::<u8>::empty());
        proof {
            if tree.arena().bytes().len() <= u32::MAX {
                assert(tree.name_of(id as int) =~= name@);
            }
        }
        id
    } else {
        let ext: Option<String> = match extension(path) {
            Some(e) => {
                let text = utf8_lossy(e.as_slice());
                Some(to_lowercase(text.as_str()))
            },
            None => None,
        };
        let ext_ref: Option<&str> = match &ext {
            Some(t) => Some(t.as_str()),
            None => None,
        };
        let id = tree.add_file(parent, name, size, ext_ref, modified, depth);
        proof {
            if let Some(t) = ext {
                assert(ext_ref->0@ == t@);
            } else {
                assert(tree.arena().bytes() =~= old(tree).arena().bytes() + name@ + Seq::<u8>::empty());
            }
            if tree.arena().bytes().len() <= u32::MAX {
                assert(tree.name_of(id as int) =~= name@);
                if let Some(r) = tree.at(id as int).ext_ref() {
                    assert(tree.arena().slice(r) =~= recorded_extension(path@)->0);
                }
            }
        }
        id
    }
}

/// Space below this is not worth a block of its own.
pub const MIN_SKIPPED_BYTES: u64 = 16777216;

/// The space a volume reports that the walk did not see: the total less
/// what was counted and what is free, 0 when none.
pub open spec fn unseen_bytes(total: u64, used: u64, avail: u64) -> int {
    let counted = if used + avail > u64::MAX {
        u64::MAX as int
    } else {
        used + avail
    };
    if total - counted < 0 {
        0
    } else {
        total - counted
    }
}

/// When the unseen block is added, what was counted, the free space and
/// the unseen block together make up the whole volume.
pub proof fn lemma_volume_covered(total: u64, used: u64, avail: u64)
    requires
        used + avail <= u64::MAX,
        unseen_bytes(total, used, avail) > MIN_SKIPPED_BYTES,
    ensures
        used + avail + unseen_bytes(total, used, avail) == total,
{
}

/// For a scan of a whole volume of `total` bytes with `avail` free: adds
/// under the root a `<Free Space>` file of `avail` bytes (extension
/// `__free_space__`) when any is free, then a `<Hidden / Skipped>` file
/// (extension `__skipped__`) for the space neither counted at the root
/// nor free, when that exceeds 16 MiB. The totals are not refreshed.
pub fn add_volume_nodes(tree: &mut FileTree, total: u64, avail: u64)
    requires
        old(tree).wf(),
    ensures
        final(tree).wf(),
        final(tree).len() == old(tree).len() + (if avail > 0 { 1int } else { 0int }) + (if unseen_bytes(
            total,
            old(tree).at(0).size,
            avail,
        ) > MIN_SKIPPED_BYTES {
            1int
        } else {
            0int
        }),
        avail > 0 ==> {
            &&& final(tree).at(old(tree).len() as int).parent == Some(0usize)
            &&& final(tree).at(old(tree).len() as int).size == avail
            &&& !final(tree).at(old(tree).len() as int).spec_is_dir()
            &&& final(tree).at(old(tree).len() as int).depth == 1
        },
        unseen_bytes(total, old(tree).at(0).size, avail) > MIN_SKIPPED_BYTES ==> {
            let k = final(tree).len() - 1;
            &&& final(tree).at(k).parent == Some(0usize)
            &&& final(tree).at(k).size == unseen_bytes(total, old(tree).at(0).size, avail)
            &&& !final(tree).at(k).spec_is_dir()
            &&& final(tree).at(k).depth == 1
            &&& final(tree).at(k).ext_ref() is Some
        },
        avail > 0 ==> final(tree).at(old(tree).len() as int).ext_ref() is Some,
        final(tree).arena().bytes() == old(tree).arena().bytes() + (if avail > 0 {
            "<Free Space>".spec_bytes() + "__free_space__".spec_bytes()
        } else {
            Seq::<u8>::empty()
        }) + (if unseen_bytes(total, old(tree).at(0).size, avail) > MIN_SKIPPED_BYTES {
            "<Hidden / Skipped>".spec_bytes() + "__skipped__".spec_bytes()
        } else {
            Seq::<u8>::empty()
        }),
        forall|j: int| 1 <= j < old(tree).len() ==> #[trigger] final(tree).at(j) == old(tree).at(j),
        avail > 0 ==> {
            let n = final(tree).at(old(tree).len() as int);
            let a = old(tree).arena().bytes().len();
            &&& n.name.start() == (a as u32) as nat
            &&& n.name.count() == ("<Free Space>".spec_bytes().len() as u32) as nat
            &&& n.ext_ref() matches Some(r) && r.start() == ((a + "<Free Space>".spec_bytes().len()) as u32) as nat
                && r.count() == ("__free_space__".spec_bytes().len() as u32) as nat
            &&& final(tree).arena().bytes().len() <= u32::MAX ==> {
                &&& final(tree).name_of(old(tree).len() as int) == "<Free Space>".spec_bytes()
                &&& n.ext_ref() matches Some(r) && final(tree).arena().slice(r) == "__free_space__".spec_bytes()
            }
        },
        unseen_bytes(total, old(tree).at(0).size, avail) > MIN_SKIPPED_BYTES ==> {
            let k = final(tree).len() - 1;
            let n = final(tree).at(k);
            let a = final(tree).arena().bytes().len() - "<Hidden / Skipped>".spec_bytes().len()
                - "__skipped__".spec_bytes().len();
            &&& n.name.start() == (a as u32) as nat
            &&& n.name.count() == ("<Hidden / Skipped>".spec_bytes().len() as u32) as nat
            &&& n.ext_ref() matches Some(r) && r.start() == ((a + "<Hidden / Skipped>".spec_bytes().len()) as u32)
                as nat && r.count() == ("__skipped__".spec_bytes().len() as u32) as nat
            &&& final(tree).arena().bytes().len() <= u32::MAX ==> {
                &&& final(tree).name_of(k) == "<Hidden / Skipped>".spec_bytes()
                &&& n.ext_ref() matches Some(r) && final(tree).arena().slice(r) == "__skipped__".spec_bytes()
            }
        },
{
    let root = tree.root();
    let used = tree.node(root).size;
    if avail > 0 {
        let id = tree.add_file(root, "<Free Space>".as_bytes(), avail, Some("__free_space__"), now(), 1);
        proof {
            if tree.arena().bytes().len() <= u32::MAX {
                assert(tree.name_of(id as int) =~= "<Free Space>".spec_bytes());
                let r = tree.at(id as int).ext_ref()->0;
                assert(tree.arena().slice(r) =~= "__free_space__".spec_bytes());
            }
        }
    } else {
        assert(tree.arena().bytes() =~= old(tree).arena().bytes() + Seq::<u8>::empty());
    }
    let ghost mid = tree.arena().bytes();
    let counted = used.saturating_add(avail);
    let skipped = total.saturating_sub(counted);
    if skipped > MIN_SKIPPED_BYTES {
        let id = tree.add_file(root, "<Hidden / Skipped>".as_bytes(), skipped, Some("__skipped__"), now(), 1);
        assert(tree.arena().bytes() =~= mid + ("<Hidden / Skipped>".spec_bytes() + "__skipped__".spec_bytes()));
        proof {
            if tree.arena().bytes().len() <= u32::MAX {
                assert(tree.name_of(id as int) =~= "<Hidden / Skipped>".spec_bytes());
                let r = tree.at(id as int).ext_ref()->0;
                assert(tree.arena().slice(r) =~= "__skipped__".spec_bytes());
            }
        }
    } else {
        assert(tree.arena().bytes() =~= mid + Seq::<u8>::empty());
    }
}
} // verus!

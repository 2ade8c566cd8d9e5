//! Persisted UI state: the last scan path and colour mode, restored on
//! launch, kept as `key=value` lines.

use vstd::prelude::*;
use crate::treemap::color::ColorMode;

verus! {

/// Byte of a line feed.
pub const LF: u8 = 10;

/// Byte of a carriage return.
pub const CR: u8 = 13;

/// The state kept between launches.
#[derive(Debug, Clone)]
pub struct PersistedState {
    /// The last scanned folder, as path bytes.
    pub scan_root: Option<Vec<u8>>,
    pub color_mode: Option<ColorMode>,
}

impl PersistedState {
    /// The state as plain values.
    pub open spec fn view_state(&self) -> (Option<Seq<u8>>, Option<ColorMode>) {
        (
            match self.scan_root {
                Some(v) => Some(v@),
                None => None,
            },
            self.color_mode,
        )
    }
}

impl Default for PersistedState {
    fn default() -> (s: Self)
        ensures
            s.scan_root is None,
            s.color_mode is None,
    {
        PersistedState { scan_root: None, color_mode: None }
    }
}

/// The bytes of `scan_root=`.
pub open spec fn scan_root_key() -> Seq<u8> {
    seq![115u8, 99, 97, 110, 95, 114, 111, 111, 116, 61]
}

/// The bytes of `color_mode=`.
pub open spec fn color_mode_key() -> Seq<u8> {
    seq![99u8, 111, 108, 111, 114, 95, 109, 111, 100, 101, 61]
}

/// The name a colour mode is saved under: `Extension`, `Depth` or `Age`.
pub open spec fn mode_name(m: ColorMode) -> Seq<u8> {
    match m {
        ColorMode::Extension => seq![69u8, 120, 116, 101, 110, 115, 105, 111, 110],
        ColorMode::Depth => seq![68u8, 101, 112, 116, 104],
        ColorMode::Age => seq![65u8, 103, 101],
    }
}

/// The colour mode saved under `name`, if any.
pub open spec fn mode_named(name: Seq<u8>) -> Option<ColorMode> {
    if name == mode_name(ColorMode::Extension) {
        Some(ColorMode::Extension)
    } else if name == mode_name(ColorMode::Depth) {
        Some(ColorMode::Depth)
    } else if name == mode_name(ColorMode::Age) {
        Some(ColorMode::Age)
    } else {
        None
    }
}

/// Index of the first line feed in `b`, or `b.len()`.
pub open spec fn first_lf(b: Seq<u8>) -> int
    decreases b.len(),
{
    if b.len() == 0 || b[0] == LF {
        0
    } else {
        1 + first_lf(b.drop_first())
    }
}

/// A line ended by a line feed loses a carriage return before it.
pub open spec fn strip_cr(x: Seq<u8>) -> Seq<u8> {
    if x.len() > 0 && x.last() == CR {
        x.drop_last()
    } else {
        x
    }
}

/// The lines of `b`, as `str::lines` gives them: split at line feeds,
/// a carriage return before a line feed dropped, and no empty last line
/// after a final line feed.
pub open spec fn lines_of(b: Seq<u8>) -> Seq<Seq<u8>>
    decreases b.len(),
{
    if b.len() == 0 {
        Seq::empty()
    } else {
        let k = first_lf(b);
        if k >= b.len() || k < 0 {
            seq![b]
        } else {
            seq![strip_cr(b.take(k))] + lines_of(b.skip(k + 1))
        }
    }
}

/// `key` begins `line`.
pub open spec fn has_prefix(line: Seq<u8>, key: Seq<u8>) -> bool {
    key.len() <= line.len() && line.take(key.len() as int) == key
}

/// One line applied to the state read so far: `scan_root=` sets the path
/// to the rest of the line, `color_mode=` sets the mode named by the rest
/// (none for an unknown name); other lines change nothing.
pub open spec fn apply_line(
    st: (Option<Seq<u8>>, Option<ColorMode>),
    line: Seq<u8>,
) -> (Option<Seq<u8>>, Option<ColorMode>) {
    if has_prefix(line, scan_root_key()) {
        (Some(line.skip(scan_root_key().len() as int)), st.1)
    } else if has_prefix(line, color_mode_key()) {
        (st.0, mode_named(line.skip(color_mode_key().len() as int)))
    } else {
        st
    }
}

/// The state read from `ls` line by line, starting from `st`; later
/// lines win.
pub open spec fn read_from(
    st: (Option<Seq<u8>>, Option<ColorMode>),
    ls: Seq<Seq<u8>>,
) -> (Option<Seq<u8>>, Option<ColorMode>)
    decreases ls.len(),
{
    if ls.len() == 0 {
        st
    } else {
        read_from(apply_line(st, ls[0]), ls.drop_first())
    }
}

/// The state that saved text `b` holds.
pub open spec fn read_state(b: Seq<u8>) -> (Option<Seq<u8>>, Option<ColorMode>) {
    read_from((None, None), lines_of(b))
}

/// The text the state is saved as: `scan_root=<path>`, a line feed,
/// `color_mode=<mode>`, a line feed.
pub open spec fn state_bytes(root: Seq<u8>, mode: ColorMode) -> Seq<u8> {
    scan_root_key() + root + seq![LF] + color_mode_key() + mode_name(mode) + seq![LF]
}


proof fn lemma_first_lf_at(b: Seq<u8>, k: int)
    requires
        0 <= k <= b.len(),
        k < b.len() ==> b[k] == LF,
        forall|i: int| 0 <= i < k ==> b[i] != LF,
    ensures
        first_lf(b) == k,
    decreases b.len(),
{
    if b.len() > 0 && b[0] != LF {
        let q = b.drop_first();
        assert forall|i: int| 0 <= i < k - 1 implies q[i] != LF by {
            assert(q[i] == b[i + 1]);
        }
        lemma_first_lf_at(q, k - 1);
    }
}

/// `key` begins `b` from index `pos` on.
fn has_key_at(b: &[u8], pos: usize, end: usize, key: &[u8]) -> (r: bool)
    requires
        pos <= end <= b@.len(),
    ensures
        r == has_prefix(b@.subrange(pos as int, end as int), key@),
{
    if key.len() > end - pos {
        return false;
    }
    let mut i: usize = 0;
    while i < key.len()
        invariant
            pos + key@.len() <= end <= b@.len(),
            i <= key@.len(),
            forall|j: int| 0 <= j < i ==> b@[pos + j] == key@[j],
        decreases key@.len() - i,
    {
        if b[pos + i] != key[i] {
            assert(b@.subrange(pos as int, end as int).take(key@.len() as int)[i as int] != key@[i as int]);
            return false;
        }
        i = i + 1;
    }
    assert(b@.subrange(pos as int, end as int).take(key@.len() as int) =~= key@);
    true
}

fn scan_root_key_bytes() -> (r: Vec<u8>)
    ensures
        r@ == scan_root_key(),
{
    let r = vec![115u8, 99, 97, 110, 95, 114, 111, 111, 116, 61];
    assert(r@ =~= scan_root_key());
    r
}

fn color_mode_key_bytes() -> (r: Vec<u8>)
    ensures
        r@ == color_mode_key(),
{
    let r = vec![99u8, 111, 108, 111, 114, 95, 109, 111, 100, 101, 61];
    assert(r@ =~= color_mode_key());
    r
}

fn mode_name_bytes(m: ColorMode) -> (r: Vec<u8>)
    ensures
        r@ == mode_name(m),
{
    let r = match m {
        ColorMode::Extension => vec![69u8, 120, 116, 101, 110, 115, 105, 111, 110],
        ColorMode::Depth => vec![68u8, 101, 112, 116, 104],
        ColorMode::Age => vec![65u8, 103, 101],
    };
    assert(r@ =~= mode_name(m));
    r
}

/// The colour mode named by `b[start..end]`, if any.
fn mode_from(b: &[u8], start: usize, end: usize) -> (r: Option<ColorMode>)
    requires
        start <= end <= b@.len(),
    ensures
        r == mode_named(b@.subrange(start as int, end as int)),
{
    let ghost name = b@.subrange(start as int, end as int);
    let s = &b[start..end];
    assert(s@ =~= name);
    let e = mode_name_bytes(ColorMode::Extension);
    if crate::paths::bytes_eq(s, e.as_slice()) {
        return Some(ColorMode::Extension);
    }
    let d = mode_name_bytes(ColorMode::Depth);
    if crate::paths::bytes_eq(s, d.as_slice()) {
        return Some(ColorMode::Depth);
    }
    let a = mode_name_bytes(ColorMode::Age);
    if crate::paths::bytes_eq(s, a.as_slice()) {
        return Some(ColorMode::Age);
    }
    None
}

/// Reads the saved state from its text; see [`read_state`].
pub fn parse_state(content: &[u8]) -> (s: PersistedState)
    ensures
        s.view_state() == read_state(content@),
{
    let n = content.len();
    let skey = scan_root_key_bytes();
    let ckey = color_mode_key_bytes();
    let mut st = PersistedState { scan_root: None, color_mode: None };
    let mut pos: usize = 0;
    assert(content@.skip(0) =~= content@);
    while pos < n
        invariant
            n == content@.len(),
            pos <= n,
            skey@ == scan_root_key(),
            ckey@ == color_mode_key(),
            read_from(st.view_state(), lines_of(content@.skip(pos as int))) == read_state(content@),
        decreases n - pos,
    {
        let ghost rest = content@.skip(pos as int);
        let mut end = pos;
        while end < n && content[end] != LF
            invariant
                pos <= end <= n,
                n == content@.len(),
                forall|i: int| pos <= i < end ==> content@[i] != LF,
            decreases n - end,
        {
            end = end + 1;
        }
        let ghost k = end - pos;
        proof {
            assert forall|i: int| 0 <= i < k implies rest[i] != LF by {
                assert(rest[i] == content@[pos + i]);
            }
            if end < n {
                assert(rest[k] == content@[end as int]);
            }
            lemma_first_lf_at(rest, k);
        }
        let line_end = if end < n && end > pos && content[end - 1] == CR {
            end - 1
        } else {
            end
        };
        let ghost line = content@.subrange(pos as int, line_end as int);
        proof {
            if end < n {
                assert(line =~= strip_cr(rest.take(k)));
                assert(rest.skip(k + 1) =~= content@.skip(end + 1));
                assert(lines_of(rest) == seq![line] + lines_of(rest.skip(k + 1)));
            } else {
                assert(line =~= rest);
                assert(lines_of(rest) == seq![rest]);
                assert(content@.skip(n as int) =~= Seq::<u8>::empty());
            }
        }
        let ghost before = st.view_state();
        if has_key_at(content, pos, line_end, skey.as_slice()) {
            let start = pos + skey.len();
            let mut v: Vec<u8> = Vec::new();
            v.extend_from_slice(&content[start..line_end]);
            assert(v@ =~= line.skip(scan_root_key().len() as int));
            st.scan_root = Some(v);
        } else if has_key_at(content, pos, line_end, ckey.as_slice()) {
            let start = pos + ckey.len();
            let m = mode_from(content, start, line_end);
            assert(content@.subrange(start as int, line_end as int) =~= line.skip(color_mode_key().len() as int));
            st.color_mode = m;
        }
        assert(st.view_state() == apply_line(before, line));
        if end < n {
            pos = end + 1;
        } else {
            pos = n;
        }
        proof {
            assert(read_from(before, lines_of(rest)) == read_from(apply_line(before, line), lines_of(rest).drop_first()));
            assert(lines_of(rest).drop_first() =~= lines_of(content@.skip(pos as int)));
        }
    }
    assert(content@.skip(pos as int) =~= Seq::<u8>::empty());
    st
}

/// The text that saves `scan_root` and `mode`; see [`state_bytes`].
pub fn state_text(scan_root: &[u8], mode: ColorMode) -> (r: Vec<u8>)
    ensures
        r@ == state_bytes(scan_root@, mode),
{
    let mut out = scan_root_key_bytes();
    out.extend_from_slice(scan_root);
    out.push(LF);
    let ck = color_mode_key_bytes();
    out.extend_from_slice(ck.as_slice());
    let mn = mode_name_bytes(mode);
    out.extend_from_slice(mn.as_slice());
    out.push(LF);
    assert(out@ =~= state_bytes(scan_root@, mode));
    out
}

/// What is saved is what is read back: the text saved for a path and a
/// colour mode reads back as that path and that mode, for any path that
/// holds no line feed and does not end in a carriage return.
pub proof fn lemma_state_round_trip(root: Seq<u8>, mode: ColorMode)
    requires
        forall|i: int| 0 <= i < root.len() ==> root[i] != LF,
        !(root.len() > 0 && root.last() == CR),
    ensures
        read_state(state_bytes(root, mode)) == (Some(root), Some(mode)),
{
    let b = state_bytes(root, mode);
    let l1 = scan_root_key() + root;
    let tail = color_mode_key() + mode_name(mode) + seq![LF];
    let l2 = color_mode_key() + mode_name(mode);
    assert(b =~= l1 + seq![LF] + tail);
    let k = l1.len() as int;
    assert forall|i: int| 0 <= i < k implies b[i] != LF by {
        if i < scan_root_key().len() {
            assert(b[i] == scan_root_key()[i]);
        } else {
            assert(b[i] == root[i - scan_root_key().len()]);
        }
    }
    assert(b[k] == LF);
    lemma_first_lf_at(b, k);
    assert(b.take(k) =~= l1);
    assert(b.skip(k + 1) =~= tail);
    assert(strip_cr(l1) == l1) by {
        if root.len() == 0 {
            assert(l1.last() == 61u8);
        } else {
            assert(l1.last() == root.last());
        }
    }
    let m = l2.len() as int;
    assert forall|i: int| 0 <= i < m implies tail[i] != LF by {
        if i < color_mode_key().len() {
            assert(tail[i] == color_mode_key()[i]);
        } else {
            assert(tail[i] == mode_name(mode)[i - color_mode_key().len()]);
        }
    }
    assert(tail[m] == LF);
    lemma_first_lf_at(tail, m);
    assert(tail.take(m) =~= l2);
    assert(strip_cr(l2) == l2);
    assert(tail.skip(m + 1) =~= Seq::<u8>::empty());
    assert(lines_of(tail.skip(m + 1)) =~= Seq::<Seq<u8>>::empty());
    assert(lines_of(tail) == seq![strip_cr(tail.take(m))] + lines_of(tail.skip(m + 1)));
    assert(lines_of(tail) =~= seq![l2]);
    assert(lines_of(b) == seq![strip_cr(b.take(k))] + lines_of(b.skip(k + 1)));
    assert(lines_of(b) =~= seq![l1, l2]);
    assert(l1.take(scan_root_key().len() as int) =~= scan_root_key());
    assert(l1.skip(scan_root_key().len() as int) =~= root);
    assert(l2.take(color_mode_key().len() as int) =~= color_mode_key());
    assert(l2.skip(color_mode_key().len() as int) =~= mode_name(mode));
    assert(!has_prefix(l2, scan_root_key())) by {
        assert(l2[0] != scan_root_key()[0]);
        assert(l2.take(scan_root_key().len() as int)[0] == l2[0]);
    }
    let s1 = apply_line((None, None), l1);
    assert(s1 == (Some(root), None::<ColorMode>));
    assert(apply_line(s1, l2) == (Some(root), Some(mode)));
    assert(seq![l1, l2].drop_first() =~= seq![l2]);
    assert(seq![l2].drop_first() =~= Seq::<Seq<u8>>::empty());
    assert(read_from(apply_line(s1, l2), Seq::<Seq<u8>>::empty()) == apply_line(s1, l2));
    assert(read_from(s1, seq![l2]) == read_from(apply_line(s1, l2), seq![l2].drop_first()));
    assert(read_from((None, None), seq![l1, l2]) == read_from(s1, seq![l1, l2].drop_first()));
}
} // verus!

//! Unix paths as raw bytes, read the way `std::path::Path` reads them:
//! components are the pieces between slashes, with empty pieces and `.`
//! dropped, preceded by the root for an absolute path or by `.` for a
//! relative path that starts with it.

use vstd::prelude::*;

verus! {

/// Byte of `/`.
pub const SLASH: u8 = 47;

/// Byte of `.`.
pub const DOT: u8 = 46;

/// Index of the first `/` in `p`, or `p.len()` when there is none.
pub open spec fn first_slash(p: Seq<u8>) -> int
    decreases p.len(),
{
    if p.len() == 0 {
        0
    } else if p[0] == SLASH {
        0
    } else {
        1 + first_slash(p.drop_first())
    }
}

/// One piece between slashes as a component: nothing when empty or `.`.
pub open spec fn piece(x: Seq<u8>) -> Seq<Seq<u8>> {
    if x.len() == 0 || x == seq![DOT] {
        Seq::empty()
    } else {
        seq![x]
    }
}

/// The normal components of `p`, `..` included: the pieces between
/// slashes with empty pieces and `.` left out.
pub open spec fn pieces(p: Seq<u8>) -> Seq<Seq<u8>>
    decreases p.len(),
{
    if p.len() == 0 {
        Seq::empty()
    } else {
        let k = first_slash(p);
        proof {
            lemma_first_slash(p);
        }
        if k >= p.len() {
            piece(p)
        } else {
            piece(p.take(k)) + pieces(p.skip(k + 1))
        }
    }
}

/// All components of `p`: the root (written `/`) of an absolute path, or
/// the current directory (written `.`) that a relative path starts with,
/// then the normal ones.
pub open spec fn components(p: Seq<u8>) -> Seq<Seq<u8>> {
    if p.len() > 0 && p[0] == SLASH {
        seq![seq![SLASH]] + pieces(p)
    } else if p.len() > 0 && p[0] == DOT && (p.len() == 1 || p[1] == SLASH) {
        seq![seq![DOT]] + pieces(p)
    } else {
        pieces(p)
    }
}

/// `Path::file_name`: the last component when it is a normal one other
/// than `..`.
pub open spec fn file_name_of(p: Seq<u8>) -> Option<Seq<u8>> {
    let ps = pieces(p);
    if ps.len() == 0 || ps.last() == seq![DOT, DOT] {
        None
    } else {
        Some(ps.last())
    }
}

/// Index of the last `.` in `x`, or -1 when there is none.
pub open spec fn last_dot(x: Seq<u8>) -> int
    decreases x.len(),
{
    if x.len() == 0 {
        -1
    } else if x.last() == DOT {
        x.len() - 1
    } else {
        last_dot(x.drop_last())
    }
}

/// `Path::extension`: what follows the last `.` of the file name, unless
/// that dot is the name's first byte or there is none.
pub open spec fn extension_of(p: Seq<u8>) -> Option<Seq<u8>> {
    match file_name_of(p) {
        Some(name) => {
            let i = last_dot(name);
            if i > 0 {
                Some(name.skip(i + 1))
            } else {
                None
            }
        },
        None => None,
    }
}

/// `Path::starts_with`: the components of `base` begin the components of `p`.
pub open spec fn path_starts_with(p: Seq<u8>, base: Seq<u8>) -> bool {
    components(base).is_prefix_of(components(p))
}

/// `x` ends with `suffix`, byte for byte.
pub open spec fn ends_with(x: Seq<u8>, suffix: Seq<u8>) -> bool {
    suffix.len() <= x.len() && x.skip(x.len() - suffix.len()) == suffix
}

/// `first_slash` is the position of the first `/`, or the length when
/// there is none.
pub proof fn lemma_first_slash(p: Seq<u8>)
    ensures
        0 <= first_slash(p) <= p.len(),
        first_slash(p) < p.len() ==> p[first_slash(p)] == SLASH,
        forall|i: int| 0 <= i < first_slash(p) ==> p[i] != SLASH,
    decreases p.len(),
{
    if p.len() > 0 && p[0] != SLASH {
        lemma_first_slash(p.drop_first());
        assert forall|i: int| 0 <= i < first_slash(p) implies p[i] != SLASH by {
            if i > 0 {
                assert(p[i] == p.drop_first()[i - 1]);
            }
        }
    }
}

proof fn lemma_first_slash_at(p: Seq<u8>, k: int)
    requires
        0 <= k <= p.len(),
        k < p.len() ==> p[k] == SLASH,
        forall|i: int| 0 <= i < k ==> p[i] != SLASH,
    ensures
        first_slash(p) == k,
    decreases p.len(),
{
    if p.len() > 0 && p[0] != SLASH {
        let q = p.drop_first();
        assert forall|i: int| 0 <= i < k - 1 implies q[i] != SLASH by {
            assert(q[i] == p[i + 1]);
        }
        lemma_first_slash_at(q, k - 1);
    }
}

/// Byte-for-byte equality of two slices.
pub fn bytes_eq(a: &[u8], b: &[u8]) -> (r: bool)
    ensures
        r == (a@ == b@),
{
    if a.len() != b.len() {
        return false;
    }
    let mut i: usize = 0;
    while i < a.len()
        invariant
            a@.len() == b@.len(),
            i <= a@.len(),
            forall|j: int| 0 <= j < i ==> a@[j] == b@[j],
        decreases a@.len() - i,
    {
        if a[i] != b[i] {
            return false;
        }
        i = i + 1;
    }
    assert(a@ =~= b@);
    true
}

/// `x` ends with `suffix`.
pub fn bytes_end_with(x: &[u8], suffix: &[u8]) -> (r: bool)
    ensures
        r == ends_with(x@, suffix@),
{
    if suffix.len() > x.len() {
        return false;
    }
    let off = x.len() - suffix.len();
    let mut i: usize = 0;
    while i < suffix.len()
        invariant
            off + suffix@.len() == x@.len(),
            x@.len() <= usize::MAX,
            i <= suffix@.len(),
            forall|j: int| 0 <= j < i ==> x@[off + j] == suffix@[j],
        decreases suffix@.len() - i,
    {
        if x[off + i] != suffix[i] {
            assert(x@.skip(off as int)[i as int] != suffix@[i as int]);
            return false;
        }
        i = i + 1;
    }
    assert(x@.skip(off as int) =~= suffix@);
    true
}

/// The normal components of `p`, in order.
pub fn path_pieces(p: &[u8]) -> (r: Vec<Vec<u8>>)
    ensures
        r@.len() == pieces(p@).len(),
        forall|i: int| 0 <= i < r@.len() ==> (#[trigger] r@[i])@ == pieces(p@)[i],
{
    let mut out: Vec<Vec<u8>> = Vec::new();
    let ghost mut got: Seq<Seq<u8>> = Seq::empty();
    let mut pos: usize = 0;
    let n = p.len();
    assert(p@.skip(0) =~= p@);
    while pos < n
        invariant
            n == p@.len(),
            pos <= n,
            got + pieces(p@.skip(pos as int)) == pieces(p@),
            out@.len() == got.len(),
            forall|i: int| 0 <= i < out@.len() ==> (#[trigger] out@[i])@ == got[i],
        decreases n - pos,
    {
        let ghost rest = p@.skip(pos as int);
        let mut end = pos;
        while end < n && p[end] != SLASH
            invariant
                pos <= end <= n,
                n == p@.len(),
                forall|i: int| pos <= i < end ==> p@[i] != SLASH,
            decreases n - end,
        {
            end = end + 1;
        }
        let ghost k = end - pos;
        proof {
            assert forall|i: int| 0 <= i < k implies rest[i] != SLASH by {
                assert(rest[i] == p@[pos + i]);
            }
            if end < n {
                assert(rest[k] == p@[end as int]);
            }
            lemma_first_slash_at(rest, k);
        }
        let len = end - pos;
        let is_dot = len == 1 && p[pos] == DOT;
        let ghost part = rest.take(k);
        assert(part =~= p@.subrange(pos as int, end as int));
        if len > 0 && !is_dot {
            let mut v: Vec<u8> = Vec::new();
            v.extend_from_slice(&p[pos..end]);
            assert(v@ =~= part);
            out.push(v);
            proof {
                assert(part != seq![DOT]) by {
                    if part == seq![DOT] {
                        assert(part[0] == p@[pos as int]);
                    }
                }
                got = got.push(part);
            }
        } else {
            proof {
                if len == 1 {
                    assert(part =~= seq![DOT]);
                }
            }
        }
        proof {
            if end < n {
                assert(rest.skip(k + 1) =~= p@.skip(end + 1));
                assert(pieces(rest) == piece(part) + pieces(rest.skip(k + 1)));
            } else {
                assert(rest.take(k) =~= rest);
                assert(pieces(rest) == piece(rest));
                assert(p@.skip(n as int) =~= Seq::<u8>::empty());
            }
        }
        if end < n {
            pos = end + 1;
        } else {
            pos = n;
        }
        proof {
            assert(got + pieces(p@.skip(pos as int)) =~= pieces(p@));
        }
    }
    proof {
        assert(p@.skip(pos as int) =~= Seq::<u8>::empty());
        assert(got =~= pieces(p@));
    }
    out
}


/// A fresh copy of `b`.
pub fn to_vec(b: &[u8]) -> (r: Vec<u8>)
    ensures
        r@ == b@,
{
    let mut v: Vec<u8> = Vec::new();
    v.extend_from_slice(b);
    assert(v@ =~= b@);
    v
}

/// `Path::file_name` on the bytes of a Unix path.
pub fn file_name(p: &[u8]) -> (r: Option<Vec<u8>>)
    ensures
        r is None <==> file_name_of(p@) is None,
        r matches Some(v) ==> file_name_of(p@) == Some(v@),
{
    let ps = path_pieces(p);
    if ps.len() == 0 {
        return None;
    }
    let last = &ps[ps.len() - 1];
    assert(last@ == pieces(p@).last());
    if last.len() == 2 && last[0] == DOT && last[1] == DOT {
        assert(last@ =~= seq![DOT, DOT]);
        return None;
    }
    assert(last@ != seq![DOT, DOT]) by {
        if last@ == seq![DOT, DOT] {
            assert(last@[0] == DOT && last@[1] == DOT);
        }
    }
    Some(to_vec(last.as_slice()))
}

/// `Path::extension` on the bytes of a Unix path.
pub fn extension(p: &[u8]) -> (r: Option<Vec<u8>>)
    ensures
        r is None <==> extension_of(p@) is None,
        r matches Some(v) ==> extension_of(p@) == Some(v@),
{
    match file_name(p) {
        None => None,
        Some(name) => {
            let mut i = name.len();
            assert(name@.take(i as int) =~= name@);
            while i > 0 && name[i - 1] != DOT
                invariant
                    i <= name@.len(),
                    last_dot(name@) == last_dot(name@.take(i as int)),
                decreases i,
            {
                assert(name@.take(i as int).drop_last() =~= name@.take(i - 1));
                i = i - 1;
            }
            proof {
                if i > 0 {
                    assert(name@.take(i as int).last() == DOT);
                } else {
                    assert(name@.take(0) =~= Seq::<u8>::empty());
                }
            }
            if i > 1 {
                let mut v: Vec<u8> = Vec::new();
                let n = name.len();
                v.extend_from_slice(&name.as_slice()[i..n]);
                assert(v@ =~= name@.skip(i as int));
                Some(v)
            } else {
                None
            }
        },
    }
}

/// The components of `p`: see [`components`].
pub fn path_components(p: &[u8]) -> (r: Vec<Vec<u8>>)
    ensures
        r@.len() == components(p@).len(),
        forall|i: int| 0 <= i < r@.len() ==> (#[trigger] r@[i])@ == components(p@)[i],
{
    let ps = path_pieces(p);
    let mut out: Vec<Vec<u8>> = Vec::new();
    let ghost head: Seq<Seq<u8>>;
    if p.len() > 0 && p[0] == SLASH {
        out.push(vec![SLASH]);
        proof {
            head = seq![seq![SLASH]];
            assert(out@[0]@ =~= seq![SLASH]);
        }
    } else if p.len() > 0 && p[0] == DOT && (p.len() == 1 || p[1] == SLASH) {
        out.push(vec![DOT]);
        proof {
            head = seq![seq![DOT]];
            assert(out@[0]@ =~= seq![DOT]);
        }
    } else {
        proof { head = Seq::empty(); }
    }
    let h = out.len();
    proof {
        assert(out@.len() == head.len());
        assert forall|i: int| 0 <= i < out@.len() implies (#[trigger] out@[i])@ == head[i] by {}
        assert(components(p@) == head + pieces(p@));
    }
    let mut j: usize = 0;
    while j < ps.len()
        invariant
            h == head.len(),
            ps@.len() == pieces(p@).len(),
            forall|i: int| 0 <= i < ps@.len() ==> (#[trigger] ps@[i])@ == pieces(p@)[i],
            j <= ps@.len(),
            out@.len() == h + j,
            forall|i: int| 0 <= i < out@.len() ==> (#[trigger] out@[i])@ == (head + pieces(p@))[i],
        decreases ps@.len() - j,
    {
        out.push(to_vec(ps[j].as_slice()));
        j = j + 1;
    }
    out
}

/// `Path::starts_with` on the bytes of two Unix paths: whole components
/// only.
pub fn starts_with(p: &[u8], base: &[u8]) -> (r: bool)
    ensures
        r == path_starts_with(p@, base@),
{
    let a = path_components(p);
    let b = path_components(base);
    if b.len() > a.len() {
        return false;
    }
    let mut i: usize = 0;
    while i < b.len()
        invariant
            b@.len() <= a@.len(),
            a@.len() == components(p@).len(),
            b@.len() == components(base@).len(),
            forall|k: int| 0 <= k < a@.len() ==> (#[trigger] a@[k])@ == components(p@)[k],
            forall|k: int| 0 <= k < b@.len() ==> (#[trigger] b@[k])@ == components(base@)[k],
            i <= b@.len(),
            forall|k: int| 0 <= k < i ==> components(base@)[k] == components(p@)[k],
        decreases b@.len() - i,
    {
        if !bytes_eq(a[i].as_slice(), b[i].as_slice()) {
            assert(components(p@).subrange(0, b@.len() as int)[i as int] == components(p@)[i as int]);
            return false;
        }
        i = i + 1;
    }
    assert(components(base@) =~= components(p@).subrange(0, b@.len() as int));
    true
}
} // verus!

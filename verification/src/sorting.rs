//! Ordering of (key, position) pairs, used to sort by a key while keeping
//! equal keys in their input order.

use std::cmp::Ordering;
use vstd::prelude::*;

verus! {

/// The order of `(u128, usize)` tuples: by the first field, then by the second.
pub open spec fn pair_le(a: (u128, usize), b: (u128, usize)) -> bool {
    a.0 < b.0 || (a.0 == b.0 && a.1 <= b.1)
}

/// The sequence is in ascending tuple order.
pub open spec fn pairs_sorted(s: Seq<(u128, usize)>) -> bool {
    forall|i: int, j: int| 0 <= i < j < s.len() ==> pair_le(#[trigger] s[i], #[trigger] s[j])
}

/// Sorts with `slice::sort_unstable`, whose documentation promises that the
/// slice ends up in ascending order of `Ord`, which on tuples is the
/// lexicographic order of their fields, and holds the same elements.
#[verifier::external_body]
pub(crate) fn sort_pairs(v: &mut Vec<(u128, usize)>)
    ensures
        pairs_sorted(final(v)@),
        final(v)@.to_multiset() == old(v)@.to_multiset(),
{
    v.sort_unstable();
}

/// Turns a `u64` into a sort key that sorts the largest first.
pub open spec fn desc_key(x: u64) -> u128 {
    (u64::MAX - x) as u128
}

/// Position `a` comes before position `b` when ordered by key, ties by position.
pub open spec fn key_before(keys: Seq<u128>, a: usize, b: usize) -> bool {
    keys[a as int] < keys[b as int] || (keys[a as int] == keys[b as int] && a < b)
}

/// The positions `0..keys.len()`, each once, ordered by key; equal keys
/// keep their input order.
pub open spec fn is_key_order(keys: Seq<u128>, r: Seq<usize>) -> bool {
    &&& r.len() == keys.len()
    &&& forall|i: int| 0 <= i < r.len() ==> #[trigger] r[i] < keys.len()
    &&& forall|p: usize| p < keys.len() ==> r.contains(p)
    &&& forall|i: int, j: int| 0 <= i < j < r.len() ==> key_before(keys, #[trigger] r[i], #[trigger] r[j])
}

/// Orders the positions of `keys` by key, keeping equal keys in order.
pub fn order_by_keys(keys: &Vec<u128>) -> (r: Vec<usize>)
    ensures
        is_key_order(keys@, r@),
{
    let n = keys.len();
    let mut pairs: Vec<(u128, usize)> = Vec::new();
    let mut i: usize = 0;
    while i < n
        invariant
            n == keys@.len(),
            i <= n,
            pairs@ == Seq::new(i as nat, |k: int| (keys@[k], k as usize)),
        decreases n - i,
    {
        pairs.push((keys[i], i));
        assert(pairs@ =~= Seq::new((i + 1) as nat, |k: int| (keys@[k], k as usize)));
        i = i + 1;
    }
    let ghost input = pairs@;
    sort_pairs(&mut pairs);
    let ghost sorted = pairs@;
    proof {
        broadcast use vstd::seq_lib::group_to_multiset_ensures;
        assert(input.no_duplicates());
        input.lemma_multiset_has_no_duplicates();
        assert forall|x: (u128, usize)| sorted.to_multiset().contains(x) implies sorted.to_multiset().count(
            x,
        ) == 1 by {}
        sorted.lemma_multiset_has_no_duplicates_conv();
        assert(sorted.to_multiset().len() == sorted.len());
        assert(input.to_multiset().len() == input.len());
        assert forall|k: int| 0 <= k < sorted.len() implies #[trigger] sorted[k] == (
            keys@[sorted[k].1 as int],
            sorted[k].1,
        ) && sorted[k].1 < n by {
            assert(sorted.contains(sorted[k]));
            assert(sorted.to_multiset().count(sorted[k]) > 0);
            assert(input.to_multiset().count(sorted[k]) > 0);
            assert(input.contains(sorted[k]));
            let m = choose|m: int| 0 <= m < input.len() && input[m] == sorted[k];
        }
    }
    let mut r: Vec<usize> = Vec::new();
    let mut j: usize = 0;
    while j < n
        invariant
            n == keys@.len(),
            sorted.len() == n,
            pairs@ == sorted,
            j <= n,
            r@ == Seq::new(j as nat, |k: int| sorted[k].1),
        decreases n - j,
    {
        r.push(pairs[j].1);
        assert(r@ =~= Seq::new((j + 1) as nat, |k: int| sorted[k].1));
        j = j + 1;
    }
    proof {
        broadcast use vstd::seq_lib::group_to_multiset_ensures;
        assert forall|p: usize| p < keys@.len() implies r@.contains(p) by {
            assert(input[p as int] == (keys@[p as int], p));
            assert(input.contains((keys@[p as int], p)));
            assert(input.to_multiset().count((keys@[p as int], p)) > 0);
            assert(sorted.to_multiset().count((keys@[p as int], p)) > 0);
            assert(sorted.contains((keys@[p as int], p)));
            let k = choose|k: int| 0 <= k < sorted.len() && sorted[k] == (keys@[p as int], p);
            assert(r@[k] == p);
        }
        assert forall|a: int, b: int| 0 <= a < b < r@.len() implies key_before(keys@, #[trigger] r@[a], #[trigger] r@[b]) by {
            assert(pair_le(sorted[a], sorted[b]));
            assert(sorted[a] != sorted[b]);
        }
    }
    r
}


/// `a` comes before `b` in byte-lexicographic order, a proper prefix first.
pub open spec fn lex_lt(a: Seq<u8>, b: Seq<u8>) -> bool
    decreases a.len(),
{
    if a.len() == 0 {
        b.len() > 0
    } else if b.len() == 0 {
        false
    } else if a[0] != b[0] {
        a[0] < b[0]
    } else {
        lex_lt(a.drop_first(), b.drop_first())
    }
}

/// Position `a` comes before position `b` when ordered by byte key, ties
/// by position.
pub open spec fn bytes_before(keys: Seq<Seq<u8>>, a: usize, b: usize) -> bool {
    lex_lt(keys[a as int], keys[b as int]) || (keys[a as int] == keys[b as int] && a < b)
}

/// The positions `0..keys.len()`, each once, ordered by byte key; equal
/// keys keep their input order.
pub open spec fn is_bytes_order(keys: Seq<Seq<u8>>, r: Seq<usize>) -> bool {
    &&& r.len() == keys.len()
    &&& forall|i: int| 0 <= i < r.len() ==> #[trigger] r[i] < keys.len()
    &&& forall|p: usize| p < keys.len() ==> r.contains(p)
    &&& forall|i: int, j: int| 0 <= i < j < r.len() ==> bytes_before(keys, #[trigger] r[i], #[trigger] r[j])
}

/// The views of a list of byte strings.
pub open spec fn key_views(v: Seq<Vec<u8>>) -> Seq<Seq<u8>> {
    Seq::new(v.len(), |i: int| v[i]@)
}

/// The byte order is a strict total order: of two different sequences,
/// exactly one comes first.
pub proof fn lemma_lex_total(a: Seq<u8>, b: Seq<u8>)
    ensures
        a == b || lex_lt(a, b) || lex_lt(b, a),
        !(lex_lt(a, b) && lex_lt(b, a)),
        !lex_lt(a, a),
    decreases a.len(),
{
    if a.len() > 0 && b.len() > 0 && a[0] == b[0] {
        lemma_lex_total(a.drop_first(), b.drop_first());
        if a.drop_first() == b.drop_first() {
            assert(a =~= seq![a[0]] + a.drop_first());
            assert(b =~= seq![b[0]] + b.drop_first());
        }
    } else if a.len() == 0 && b.len() == 0 {
        assert(a =~= b);
    }
    if a.len() > 0 {
        lemma_lex_total(a.drop_first(), a.drop_first());
    }
}

/// Negative when position `a` comes first by byte key, then by position;
/// positive when `b` does; zero when they are the same position.
fn position_rank(keys: &Vec<Vec<u8>>, a: usize, b: usize) -> (o: i8)
    requires
        a < keys@.len(),
        b < keys@.len(),
    ensures
        o < 0 <==> bytes_before(key_views(keys@), a, b),
        o == 0 <==> a == b,
        o > 0 <==> bytes_before(key_views(keys@), b, a),
{
    let ghost ks = key_views(keys@);
    let x = keys[a].as_slice();
    let y = keys[b].as_slice();
    proof {
        lemma_lex_total(ks[a as int], ks[b as int]);
    }
    let mut i: usize = 0;
    assert(x@.skip(0) =~= x@);
    assert(y@.skip(0) =~= y@);
    while i < x.len() && i < y.len()
        invariant
            ks == key_views(keys@),
            a < keys@.len(),
            b < keys@.len(),
            x@ == ks[a as int],
            y@ == ks[b as int],
            i <= x@.len(),
            i <= y@.len(),
            lex_lt(x@, y@) == lex_lt(x@.skip(i as int), y@.skip(i as int)),
            lex_lt(y@, x@) == lex_lt(y@.skip(i as int), x@.skip(i as int)),
            (x@ == y@) == (x@.skip(i as int) == y@.skip(i as int)),
        decreases x@.len() - i,
    {
        let ghost xs = x@.skip(i as int);
        let ghost ys = y@.skip(i as int);
        if x[i] != y[i] {
            assert(xs[0] == x@[i as int] && ys[0] == y@[i as int]);
            assert(xs[0] != ys[0]);
            assert(lex_lt(xs, ys) == (xs[0] < ys[0]));
            assert(lex_lt(ys, xs) == (ys[0] < xs[0]));
            assert(x@ != y@) by {
                if x@ == y@ {
                    assert(x@[i as int] == y@[i as int]);
                }
            }
            if x[i] < y[i] {
                return -1;
            } else {
                return 1;
            }
        }
        assert(xs.drop_first() =~= x@.skip(i + 1));
        assert(ys.drop_first() =~= y@.skip(i + 1));
        assert((xs == ys) == (xs.drop_first() == ys.drop_first())) by {
            if xs.drop_first() == ys.drop_first() {
                assert(xs =~= seq![xs[0]] + xs.drop_first());
                assert(ys =~= seq![ys[0]] + ys.drop_first());
            }
        }
        i = i + 1;
    }
    let ghost xs = x@.skip(i as int);
    let ghost ys = y@.skip(i as int);
    if x.len() < y.len() {
        assert(xs.len() == 0 && ys.len() > 0);
        assert(xs != ys);
        -1
    } else if y.len() < x.len() {
        assert(ys.len() == 0 && xs.len() > 0);
        assert(xs != ys);
        1
    } else {
        assert(xs =~= ys);
        if a < b {
            -1
        } else if b < a {
            1
        } else {
            0
        }
    }
}

/// Compares positions `a` and `b` by byte key, then by position.
fn compare_positions(keys: &Vec<Vec<u8>>, a: usize, b: usize) -> (o: Ordering)
    requires
        a < keys@.len(),
        b < keys@.len(),
    ensures
        o == Ordering::Less <==> bytes_before(key_views(keys@), a, b),
        o == Ordering::Equal <==> a == b,
        o == Ordering::Greater <==> bytes_before(key_views(keys@), b, a),
{
    let r = position_rank(keys, a, b);
    if r < 0 {
        Ordering::Less
    } else if r == 0 {
        Ordering::Equal
    } else {
        Ordering::Greater
    }
}

/// Sorts the positions with `slice::sort_by` and [`compare_positions`] as the
/// comparator. The documentation of `sort_by` promises that, for a
/// comparator that is a total order (`compare_positions` orders by byte key, then
/// by position), the slice ends up in that order, holding the same
/// elements.
#[verifier::external_body]
fn sort_positions(keys: &Vec<Vec<u8>>, idx: &mut Vec<usize>)
    requires
        forall|i: int| 0 <= i < old(idx)@.len() ==> #[trigger] old(idx)@[i] < keys@.len(),
    ensures
        final(idx)@.to_multiset() == old(idx)@.to_multiset(),
        forall|i: int, j: int|
            0 <= i < j < final(idx)@.len() ==> final(idx)@[i] == final(idx)@[j] || bytes_before(
                key_views(keys@),
                #[trigger] final(idx)@[i],
                #[trigger] final(idx)@[j],
            ),
{
    idx.sort_by(|x, y| compare_positions(keys, *x, *y));
}

/// Orders the positions of `keys` by byte key, keeping equal keys in order.
pub fn order_by_bytes(keys: &Vec<Vec<u8>>) -> (r: Vec<usize>)
    ensures
        is_bytes_order(key_views(keys@), r@),
{
    let n = keys.len();
    let mut idx: Vec<usize> = Vec::new();
    let mut i: usize = 0;
    while i < n
        invariant
            n == keys@.len(),
            i <= n,
            idx@ == Seq::new(i as nat, |k: int| k as usize),
        decreases n - i,
    {
        idx.push(i);
        assert(idx@ =~= Seq::new((i + 1) as nat, |k: int| k as usize));
        i = i + 1;
    }
    let ghost input = idx@;
    sort_positions(keys, &mut idx);
    let ghost sorted = idx@;
    let ghost ks = key_views(keys@);
    proof {
        broadcast use vstd::seq_lib::group_to_multiset_ensures;
        assert(input.no_duplicates());
        input.lemma_multiset_has_no_duplicates();
        assert forall|x: usize| sorted.to_multiset().contains(x) implies sorted.to_multiset().count(x) == 1 by {}
        sorted.lemma_multiset_has_no_duplicates_conv();
        assert(sorted.to_multiset().len() == sorted.len());
        assert(input.to_multiset().len() == input.len());
        assert forall|k: int| 0 <= k < sorted.len() implies #[trigger] sorted[k] < n by {
            assert(sorted.contains(sorted[k]));
            assert(sorted.to_multiset().count(sorted[k]) > 0);
            assert(input.to_multiset().count(sorted[k]) > 0);
            assert(input.contains(sorted[k]));
        }
        assert forall|p: usize| p < n implies sorted.contains(p) by {
            assert(input[p as int] == p);
            assert(input.contains(p));
            assert(input.to_multiset().count(p) > 0);
            assert(sorted.to_multiset().count(p) > 0);
        }
        assert forall|a: int, b: int| 0 <= a < b < sorted.len() implies bytes_before(ks, #[trigger] sorted[a], #[trigger] sorted[b]) by {
            assert(sorted[a] != sorted[b]);
        }
    }
    idx
}
} // verus!

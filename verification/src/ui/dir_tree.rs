//! Orders of the directory tree: how the children of a directory are
//! sorted, and which directories are shown, top to bottom.

use std::time::SystemTime;
use vstd::prelude::*;
use vstd::string::StringSliceAdditionalSpecFns;
use vstd::utf8::encode_utf8;
use crate::app::DirSortMode;
use crate::clock::{epoch_offset, since_epoch};
use crate::scanner::tree::{increasing, lemma_live_only, live_only, FileTree, Node, NodeId, NodeKind};
use crate::sorting::{
    bytes_before, is_bytes_order, is_key_order, key_before, key_views, lemma_lex_total, lex_lt,
    order_by_bytes, order_by_keys,
};
use crate::paths::to_vec;
use crate::text::{lossy_utf8, lowercase, to_lowercase};

verus! {

/// The key of the name order: the name decoded lossily, lowercased, as
/// UTF-8 bytes.
pub open spec fn name_key(t: FileTree, c: NodeId) -> Seq<u8> {
    encode_utf8(lowercase(lossy_utf8(t.name_of(c as int))))
}

/// Files plus directories below a node.
pub open spec fn items_of(n: Node) -> int {
    n.file_count + n.subdir_count
}

/// Sibling `a` is shown before sibling `b` (which comes later in the
/// children list when `a < b`): by size, largest first; by items, most
/// first, then by size; by name, lowercased, in byte order; by time, by
/// the recency key in `times` (newest first, see [`key_of_offset`]).
/// Equal keys keep the order of the children list.
pub open spec fn shown_before(t: FileTree, sort: DirSortMode, times: Seq<u128>, a: NodeId, b: NodeId) -> bool {
    let x = t.at(a as int);
    let y = t.at(b as int);
    match sort {
        DirSortMode::Size => x.size > y.size || (x.size == y.size && a < b),
        DirSortMode::Items => items_of(x) > items_of(y) || (items_of(x) == items_of(y) && (x.size
            > y.size || (x.size == y.size && a < b))),
        DirSortMode::Name => lex_lt(name_key(t, a), name_key(t, b)) || (name_key(t, a) == name_key(
            t,
            b,
        ) && a < b),
        DirSortMode::Recent => times[a as int] < times[b as int] || (times[a as int] == times[b as int]
            && a < b),
    }
}

/// `r` is the live children of `parent`, each once, in the order `sort`,
/// with `times` the recency keys of the nodes.
pub open spec fn is_child_order(t: FileTree, sort: DirSortMode, times: Seq<u128>, parent: NodeId, r: Seq<NodeId>) -> bool {
    let l = live_only(t.nodes_view(), t.kids_of(parent as int));
    &&& r.len() == l.len()
    &&& r.no_duplicates()
    &&& forall|x: NodeId| r.contains(x) <==> l.contains(x)
    &&& forall|i: int, j: int| 0 <= i < j < r.len() ==> shown_before(t, sort, times, #[trigger] r[i], #[trigger] r[j])
}

/// The live children of `parent`, in list order.
fn live_children(tree: &FileTree, parent: NodeId) -> (r: Vec<NodeId>)
    requires
        tree.wf(),
        parent < tree.len(),
    ensures
        r@ == live_only(tree.nodes_view(), tree.kids_of(parent as int)),
        increasing(r@),
        forall|i: int| 0 <= i < r@.len() ==> #[trigger] r@[i] < tree.len() && parent < r@[i],
{
    let kids = tree.node(parent).children();
    let ghost ns = tree.nodes_view();
    let ghost ch = kids@;
    let mut live: Vec<NodeId> = Vec::new();
    let n = kids.len();
    let mut k: usize = 0;
    while k < n
        invariant
            tree.wf(),
            parent < tree.len(),
            ns == tree.nodes_view(),
            ch == kids@,
            ch == tree.kids_of(parent as int),
            n == ch.len(),
            k <= n,
            live@ == live_only(ns, ch.take(k as int)),
        decreases n - k,
    {
        assert(ch.take(k as int + 1).drop_last() =~= ch.take(k as int));
        let c = kids[k];
        assert(tree.kids_of(parent as int)[k as int] == c);
        if tree.is_alive(c) {
            live.push(c);
        }
        k = k + 1;
    }
    assert(ch.take(n as int) =~= ch);
    proof {
        lemma_live_only(ns, ch);
        assert forall|x: int, y: int| 0 <= x < y < ch.len() implies #[trigger] ch[x] < #[trigger] ch[y] by {
            assert(tree.kids_of(parent as int)[x] < tree.kids_of(parent as int)[y]);
        }
        assert forall|i: int| 0 <= i < live@.len() implies #[trigger] live@[i] < tree.len() && parent < live@[i] by {
            assert(live@.contains(live@[i]));
            let j = choose|j: int| 0 <= j < ch.len() && ch[j] == live@[i];
            assert(tree.kids_of(parent as int)[j] == live@[i]);
        }
    }
    live
}

/// `l` rearranged by `order`.
fn arrange(l: &Vec<NodeId>, order: &Vec<usize>) -> (r: Vec<NodeId>)
    requires
        order@.len() == l@.len(),
        forall|i: int| 0 <= i < order@.len() ==> #[trigger] order@[i] < l@.len(),
    ensures
        r@ == Seq::new(order@.len(), |x: int| l@[order@[x] as int]),
{
    let mut r: Vec<NodeId> = Vec::new();
    let mut q: usize = 0;
    while q < order.len()
        invariant
            order@.len() == l@.len(),
            forall|i: int| 0 <= i < order@.len() ==> #[trigger] order@[i] < l@.len(),
            q <= order@.len(),
            r@ == Seq::new(q as nat, |x: int| l@[order@[x] as int]),
        decreases order@.len() - q,
    {
        r.push(l[order[q]]);
        assert(r@ =~= Seq::new((q + 1) as nat, |x: int| l@[order@[x] as int]));
        q = q + 1;
    }
    r
}

/// A rearrangement of an increasing list by a complete order of its
/// positions holds each element once, and exactly the list's elements.
proof fn lemma_arranged(l: Seq<NodeId>, order: Seq<usize>, r: Seq<NodeId>)
    requires
        increasing(l),
        l.len() <= usize::MAX,
        order.len() == l.len(),
        forall|i: int| 0 <= i < order.len() ==> #[trigger] order[i] < l.len(),
        forall|p: usize| p < l.len() ==> order.contains(p),
        forall|i: int, j: int| 0 <= i < j < order.len() ==> #[trigger] order[i] != #[trigger] order[j],
        r == Seq::new(order.len(), |x: int| l[order[x] as int]),
    ensures
        r.len() == l.len(),
        r.no_duplicates(),
        forall|x: NodeId| r.contains(x) <==> l.contains(x),
{
    assert forall|i: int, j: int| 0 <= i < r.len() && 0 <= j < r.len() && i != j implies r[i] != r[j] by {
        let a = order[i] as int;
        let b = order[j] as int;
        if i < j {
            assert(order[i] != order[j]);
        } else {
            assert(order[j] != order[i]);
        }
        if a < b {
            assert(l[a] < l[b]);
        } else {
            assert(l[b] < l[a]);
        }
    }
    assert forall|x: NodeId| r.contains(x) <==> l.contains(x) by {
        if r.contains(x) {
            let i = choose|i: int| 0 <= i < r.len() && r[i] == x;
            assert(l[order[i] as int] == x);
        }
        if l.contains(x) {
            let p = choose|p: int| 0 <= p < l.len() && l[p] == x;
            assert(order.contains(p as usize));
            let i = choose|i: int| 0 <= i < order.len() && order[i] == p as usize;
            assert(r[i] == x);
        }
    }
}

/// Where a time lies from the epoch, in nanoseconds: `Ok` after it, `Err`
/// before it, as a signed number.
pub open spec fn signed_offset(offset: Result<u128, u128>) -> int {
    match offset {
        Ok(n) => n as int,
        Err(n) => -(n as int),
    }
}

/// The recency key of a time at `offset` from the epoch: the offset is
/// moved up by 2^127 and clamped to `u128`, then counted down from the
/// largest key, so that later times get smaller keys.
pub open spec fn key_of_offset(offset: Result<u128, u128>) -> u128 {
    let mid: int = 0x8000_0000_0000_0000_0000_0000_0000_0000;
    let up: int = if signed_offset(offset) + mid < 0 {
        0
    } else if signed_offset(offset) + mid > u128::MAX {
        u128::MAX as int
    } else {
        signed_offset(offset) + mid
    };
    (u128::MAX - up) as u128
}

/// A later time never gets a larger key.
pub proof fn lemma_key_newest_first(a: Result<u128, u128>, b: Result<u128, u128>)
    requires
        signed_offset(a) <= signed_offset(b),
    ensures
        key_of_offset(b) <= key_of_offset(a),
{
}

/// See [`key_of_offset`].
pub fn offset_key(offset: Result<u128, u128>) -> (k: u128)
    ensures
        k == key_of_offset(offset),
{
    let mid: u128 = 0x8000_0000_0000_0000_0000_0000_0000_0000;
    let up: u128 = match offset {
        Ok(n) => if n < mid {
            mid + n
        } else {
            u128::MAX
        },
        Err(n) => if n < mid {
            mid - n
        } else {
            0
        },
    };
    u128::MAX - up
}

/// The recency keys of the nodes: the key of where each node's
/// modification time lies from the epoch.
pub open spec fn recency_times(t: FileTree) -> Seq<u128> {
    Seq::new(t.len(), |i: int| key_of_offset(epoch_offset(t.at(i).modified)))
}

/// A key that orders times from the newest: the key of where `t` lies
/// from the epoch.
fn recency_key(t: SystemTime) -> (k: u128)
    ensures
        k == key_of_offset(epoch_offset(t)),
{
    let offset = since_epoch(t);
    offset_key(offset)
}

/// The sort key of child `c` in the orders by size, by items and by time.
fn number_key(tree: &FileTree, c: NodeId, sort: DirSortMode) -> (k: u128)
    requires
        tree.wf(),
        c < tree.len(),
        sort == DirSortMode::Items ==> items_of(tree.at(c as int)) <= u64::MAX,
    ensures
        sort == DirSortMode::Size ==> k == (u64::MAX - tree.at(c as int).size) as u128,
        sort == DirSortMode::Items ==> k == (u64::MAX - items_of(tree.at(c as int))) * 0x1_0000_0000_0000_0000
            + (u64::MAX - tree.at(c as int).size),
        sort == DirSortMode::Recent ==> k == recency_times(*tree)[c as int],
{
    let node = tree.node(c);
    match sort {
        DirSortMode::Size => (u64::MAX - node.size) as u128,
        DirSortMode::Items => {
            let items = node.items();
            let hi = (u64::MAX - items) as u128;
            let lo = (u64::MAX - node.size) as u128;
            assert(hi * 0x1_0000_0000_0000_0000 + lo <= u128::MAX) by (nonlinear_arith)
                requires
                    hi <= u64::MAX,
                    lo <= u64::MAX,
            ;
            hi * 0x1_0000_0000_0000_0000 + lo
        },
        _ => recency_key(node.modified),
    }
}


/// Two-part keys compare as their parts, the first part first.
proof fn lemma_two_part_key(h1: int, l1: int, h2: int, l2: int)
    requires
        0 <= l1 < 0x1_0000_0000_0000_0000,
        0 <= l2 < 0x1_0000_0000_0000_0000,
        0 <= h1,
        0 <= h2,
    ensures
        (h1 * 0x1_0000_0000_0000_0000 + l1 < h2 * 0x1_0000_0000_0000_0000 + l2) <==> (h1 < h2 || (h1
            == h2 && l1 < l2)),
        (h1 * 0x1_0000_0000_0000_0000 + l1 == h2 * 0x1_0000_0000_0000_0000 + l2) <==> (h1 == h2 && l1
            == l2),
{
    if h1 < h2 {
        assert(h1 * 0x1_0000_0000_0000_0000 + l1 < h2 * 0x1_0000_0000_0000_0000 + l2) by (nonlinear_arith)
            requires
                h1 < h2,
                0 <= l1 < 0x1_0000_0000_0000_0000,
                0 <= l2,
        ;
    } else if h2 < h1 {
        assert(h2 * 0x1_0000_0000_0000_0000 + l2 < h1 * 0x1_0000_0000_0000_0000 + l1) by (nonlinear_arith)
            requires
                h2 < h1,
                0 <= l2 < 0x1_0000_0000_0000_0000,
                0 <= l1,
        ;
    }
}

/// A directory's live children in the order `sort`, with the recency
/// keys of [`recency_times`] for the order by time; see [`shown_before`].
pub fn sorted_children(tree: &FileTree, parent: NodeId, sort: DirSortMode) -> (r: Vec<NodeId>)
    requires
        tree.wf(),
        parent < tree.len(),
        sort == DirSortMode::Items ==> forall|i: int|
            0 <= i < tree.kids_of(parent as int).len() ==> items_of(
                tree.at(#[trigger] tree.kids_of(parent as int)[i] as int),
            ) <= u64::MAX,
    ensures
        is_child_order(*tree, sort, recency_times(*tree), parent, r@),
{
    let l = live_children(tree, parent);
    let ghost ls = l@;
    proof {
        lemma_live_only(tree.nodes_view(), tree.kids_of(parent as int));
    }
    match sort {
        DirSortMode::Name => {
            let mut keys: Vec<Vec<u8>> = Vec::new();
            let mut m: usize = 0;
            while m < l.len()
                invariant
                    tree.wf(),
                    ls == l@,
                    forall|i: int| 0 <= i < ls.len() ==> #[trigger] ls[i] < tree.len(),
                    m <= ls.len(),
                    keys@.len() == m,
                    key_views(keys@) == Seq::new(m as nat, |q: int| name_key(*tree, ls[q])),
                decreases ls.len() - m,
            {
                let name = tree.name(l[m]);
                let low = to_lowercase(name.as_str());
                let kb = to_vec(low.as_str().as_bytes());
                assert(kb@ == encode_utf8(low@));
                assert(kb@ == name_key(*tree, ls[m as int]));
                let ghost before = keys@;
                keys.push(kb);
                assert forall|q: int| 0 <= q < m + 1 implies #[trigger] key_views(keys@)[q] == name_key(*tree, ls[q]) by {
                    if q < m {
                        assert(keys@[q] == before[q]);
                        assert(key_views(before)[q] == name_key(*tree, ls[q]));
                    }
                }
                assert(key_views(keys@) =~= Seq::new((m + 1) as nat, |q: int| name_key(*tree, ls[q])));
                m = m + 1;
            }
            let order = order_by_bytes(&keys);
            let ghost ks = key_views(keys@);
            proof {
                assert forall|i: int, j: int| 0 <= i < j < order@.len() implies #[trigger] order@[i]
                    != #[trigger] order@[j] by {
                    assert(bytes_before(ks, order@[i], order@[j]));
                    lemma_lex_total(ks[order@[i] as int], ks[order@[j] as int]);
                }
            }
            let r = arrange(&l, &order);
            proof {
                lemma_arranged(ls, order@, r@);
                assert forall|i: int, j: int| 0 <= i < j < r@.len() implies shown_before(
                    *tree,
                    sort,
                    recency_times(*tree),
                    #[trigger] r@[i],
                    #[trigger] r@[j],
                ) by {
                    let a = order@[i] as int;
                    let b = order@[j] as int;
                    assert(bytes_before(ks, order@[i], order@[j]));
                    assert(ks[a] == name_key(*tree, ls[a]));
                    assert(ks[b] == name_key(*tree, ls[b]));
                    if a < b {
                        assert(ls[a] < ls[b]);
                    }
                }
                assert(is_child_order(*tree, sort, recency_times(*tree), parent, r@));
            }
            r
        },
        _ => {
            let mut keys: Vec<u128> = Vec::new();
            let mut m: usize = 0;
            while m < l.len()
                invariant
                    tree.wf(),
                    parent < tree.len(),
                    sort != DirSortMode::Name,
                    ls == l@,
                    forall|x: NodeId| ls.contains(x) <==> (tree.kids_of(parent as int).contains(x) && x < tree.len()
                        && tree.at(x as int).live()),
                    sort == DirSortMode::Items ==> forall|i: int|
                        0 <= i < tree.kids_of(parent as int).len() ==> items_of(
                            tree.at(#[trigger] tree.kids_of(parent as int)[i] as int),
                        ) <= u64::MAX,
                    forall|i: int| 0 <= i < ls.len() ==> #[trigger] ls[i] < tree.len(),
                    m <= ls.len(),
                    keys@.len() == m,
                    forall|q: int| 0 <= q < m ==> {
                        &&& sort == DirSortMode::Size ==> #[trigger] keys@[q] == (u64::MAX - tree.at(
                            ls[q] as int,
                        ).size) as u128
                        &&& sort == DirSortMode::Items ==> keys@[q] == (u64::MAX - items_of(
                            tree.at(ls[q] as int),
                        )) * 0x1_0000_0000_0000_0000 + (u64::MAX - tree.at(ls[q] as int).size)
                        &&& sort == DirSortMode::Recent ==> keys@[q] == recency_times(*tree)[ls[q] as int]
                    },
                decreases ls.len() - m,
            {
                let c = l[m];
                proof {
                    assert(ls.contains(c));
                    let w = choose|w: int|
                        0 <= w < tree.kids_of(parent as int).len() && tree.kids_of(parent as int)[w] == c;
                }
                let k = number_key(tree, c, sort);
                keys.push(k);
                m = m + 1;
            }
            let order = order_by_keys(&keys);
            proof {
                assert forall|i: int, j: int| 0 <= i < j < order@.len() implies #[trigger] order@[i]
                    != #[trigger] order@[j] by {
                    assert(key_before(keys@, order@[i], order@[j]));
                }
            }
            let r = arrange(&l, &order);
            let ghost ts: Seq<u128> = recency_times(*tree);
            proof {
                lemma_arranged(ls, order@, r@);
                assert forall|i: int, j: int| 0 <= i < j < r@.len() implies shown_before(
                    *tree,
                    sort,
                    ts,
                    #[trigger] r@[i],
                    #[trigger] r@[j],
                ) by {
                    let a = order@[i] as int;
                    let b = order@[j] as int;
                    assert(key_before(keys@, order@[i], order@[j]));
                    if a < b {
                        assert(ls[a] < ls[b]);
                    }
                    if sort == DirSortMode::Items {
                        let x = tree.at(ls[a] as int);
                        let y = tree.at(ls[b] as int);
                        lemma_two_part_key(
                            u64::MAX - items_of(x),
                            u64::MAX - x.size,
                            u64::MAX - items_of(y),
                            u64::MAX - y.size,
                        );
                    }
                    if sort == DirSortMode::Recent {
                        assert(ts[ls[a] as int] == keys@[a]);
                        assert(ts[ls[b] as int] == keys@[b]);
                    }
                }
                assert(is_child_order(*tree, sort, ts, parent, r@));
            }
            r
        },
    }
}

/// Of two different siblings exactly one is shown first.
proof fn lemma_before_one_way(t: FileTree, sort: DirSortMode, times: Seq<u128>, a: NodeId, b: NodeId)
    requires
        a != b,
    ensures
        shown_before(t, sort, times, a, b) != shown_before(t, sort, times, b, a),
{
    if sort == DirSortMode::Name {
        lemma_lex_total(name_key(t, a), name_key(t, b));
    }
}

/// With the keys fixed, there is one child order only.
proof fn lemma_child_order_unique(t: FileTree, sort: DirSortMode, times: Seq<u128>, r1: Seq<NodeId>, r2: Seq<NodeId>)
    requires
        r1.no_duplicates(),
        r2.no_duplicates(),
        forall|x: NodeId| r1.contains(x) <==> r2.contains(x),
        forall|i: int, j: int| 0 <= i < j < r1.len() ==> shown_before(t, sort, times, #[trigger] r1[i], #[trigger] r1[j]),
        forall|i: int, j: int| 0 <= i < j < r2.len() ==> shown_before(t, sort, times, #[trigger] r2[i], #[trigger] r2[j]),
    ensures
        r1 == r2,
    decreases r1.len(),
{
    if r1.len() == 0 {
        if r2.len() > 0 {
            assert(r2.contains(r2[0]));
        }
        assert(r1 =~= r2);
    } else {
        assert(r1.contains(r1[0]));
        assert(r2.len() > 0);
        let a = r1[0];
        let b = r2[0];
        if a != b {
            assert(r2.contains(a));
            let p = choose|p: int| 0 <= p < r2.len() && r2[p] == a;
            assert(r1.contains(b)) by {
                assert(r2.contains(b));
            }
            let q = choose|q: int| 0 <= q < r1.len() && r1[q] == b;
            assert(shown_before(t, sort, times, r2[0], r2[p]));
            assert(shown_before(t, sort, times, r1[0], r1[q]));
            lemma_before_one_way(t, sort, times, a, b);
        }
        let s1 = r1.drop_first();
        let s2 = r2.drop_first();
        assert forall|x: NodeId| s1.contains(x) <==> s2.contains(x) by {
            if s1.contains(x) {
                let i = choose|i: int| 0 <= i < s1.len() && s1[i] == x;
                assert(r1[i + 1] == x);
                assert(x != a);
                assert(r1.contains(x));
                let k = choose|k: int| 0 <= k < r2.len() && r2[k] == x;
                assert(k != 0);
                assert(s2[k - 1] == x);
            }
            if s2.contains(x) {
                let i = choose|i: int| 0 <= i < s2.len() && s2[i] == x;
                assert(r2[i + 1] == x);
                assert(x != b);
                assert(r2.contains(x));
                let k = choose|k: int| 0 <= k < r1.len() && r1[k] == x;
                assert(k != 0);
                assert(s1[k - 1] == x);
            }
        }
        assert forall|i: int, j: int| 0 <= i < j < s1.len() implies shown_before(t, sort, times, #[trigger] s1[i], #[trigger] s1[j]) by {
            assert(s1[i] == r1[i + 1] && s1[j] == r1[j + 1]);
        }
        assert forall|i: int, j: int| 0 <= i < j < s2.len() implies shown_before(t, sort, times, #[trigger] s2[i], #[trigger] s2[j]) by {
            assert(s2[i] == r2[i + 1] && s2[j] == r2[j + 1]);
        }
        lemma_child_order_unique(t, sort, times, s1, s2);
        assert(r1 =~= seq![a] + s1);
        assert(r2 =~= seq![b] + s2);
    }
}

/// The children order of `id` under `sort`, with `times` the recency keys
/// (there is exactly one).
pub open spec fn kid_order(t: FileTree, sort: DirSortMode, times: Seq<u128>, id: NodeId) -> Seq<NodeId> {
    choose|r: Seq<NodeId>| is_child_order(t, sort, times, id, r)
}

/// The directory is expanded in the tree view.
pub open spec fn is_expanded(n: Node) -> bool {
    n.kind matches NodeKind::Directory { expanded, .. } && expanded
}

/// The directories shown from node `id` down, top to bottom: a live
/// directory, then, when expanded, what is shown from each of its
/// directory children in the order `sort`, with `times` the recency keys.
pub open spec fn shown_from(t: FileTree, sort: DirSortMode, times: Seq<u128>, id: int) -> Seq<NodeId>
    decreases t.len() - id, 1int, 0int,
{
    if 0 <= id < t.len() && t.alive_at(id) && t.at(id).spec_is_dir() {
        seq![id as NodeId] + if is_expanded(t.at(id)) {
            shown_kids(t, sort, times, id, kid_order(t, sort, times, id as NodeId).len() as int)
        } else {
            Seq::empty()
        }
    } else {
        Seq::empty()
    }
}

/// What is shown from the first `k` children of `id` in the order `sort`.
pub open spec fn shown_kids(t: FileTree, sort: DirSortMode, times: Seq<u128>, id: int, k: int) -> Seq<NodeId>
    decreases t.len() - id, 0int, k,
{
    if 0 <= id < t.len() && 0 < k <= kid_order(t, sort, times, id as NodeId).len() {
        let c = kid_order(t, sort, times, id as NodeId)[k - 1] as int;
        shown_kids(t, sort, times, id, k - 1) + if id < c < t.len() && t.at(c).spec_is_dir() {
            shown_from(t, sort, times, c)
        } else {
            Seq::empty()
        }
    } else {
        Seq::empty()
    }
}

/// No node has more items than a `u64` holds.
pub open spec fn items_fit(t: FileTree) -> bool {
    forall|i: int| 0 <= i < t.len() ==> items_of(#[trigger] t.at(i)) <= u64::MAX
}

fn visible_from(tree: &FileTree, id: NodeId, sort: DirSortMode, out: &mut Vec<NodeId>)
    requires
        tree.wf(),
        id < tree.len(),
        sort == DirSortMode::Items ==> items_fit(*tree),
    ensures
        final(out)@ == old(out)@ + shown_from(*tree, sort, recency_times(*tree), id as int),
    decreases tree.len() - id,
{
    if !tree.is_alive(id) || !tree.node(id).is_dir() {
        assert(shown_from(*tree, sort, recency_times(*tree), id as int) =~= Seq::<NodeId>::empty());
        return ;
    }
    let ghost base = out@;
    out.push(id);
    let expanded = match &tree.node(id).kind {
        NodeKind::Directory { expanded, .. } => *expanded,
        NodeKind::File { .. } => false,
    };
    if !expanded {
        assert(out@ =~= base + shown_from(*tree, sort, recency_times(*tree), id as int));
        return ;
    }
    let kids = sorted_children(tree, id, sort);
    let ghost ks = kids@;
    proof {
        assert(is_child_order(*tree, sort, recency_times(*tree), id, ks));
        let w = kid_order(*tree, sort, recency_times(*tree), id);
        assert(is_child_order(*tree, sort, recency_times(*tree), id, w));
        lemma_child_order_unique(*tree, sort, recency_times(*tree), ks, w);
        lemma_live_only(tree.nodes_view(), tree.kids_of(id as int));
        assert forall|i: int| 0 <= i < ks.len() implies id < #[trigger] ks[i] < tree.len() by {
            assert(ks.contains(ks[i]));
            let l = live_only(tree.nodes_view(), tree.kids_of(id as int));
            assert(l.contains(ks[i]));
            let j = choose|j: int| 0 <= j < tree.kids_of(id as int).len() && tree.kids_of(id as int)[j] == ks[i];
        }
        assert(shown_kids(*tree, sort, recency_times(*tree), id as int, 0) =~= Seq::<NodeId>::empty());
    }
    let mut j: usize = 0;
    while j < kids.len()
        invariant
            tree.wf(),
            id < tree.len(),
            sort == DirSortMode::Items ==> items_fit(*tree),
                ks == kids@,
            ks == kid_order(*tree, sort, recency_times(*tree), id),
            forall|i: int| 0 <= i < ks.len() ==> id < #[trigger] ks[i] < tree.len(),
            j <= ks.len(),
            out@ == base + seq![id] + shown_kids(*tree, sort, recency_times(*tree), id as int, j as int),
        decreases ks.len() - j,
    {
        let c = kids[j];
        if tree.node(c).is_dir() {
            visible_from(tree, c, sort, out);
        }
        proof {
            assert(shown_kids(*tree, sort, recency_times(*tree), id as int, j + 1) == shown_kids(*tree, sort, recency_times(*tree), id as int, j as int)
                + if tree.at(c as int).spec_is_dir() {
                shown_from(*tree, sort, recency_times(*tree), c as int)
            } else {
                Seq::empty()
            });
            assert(out@ =~= base + seq![id] + shown_kids(*tree, sort, recency_times(*tree), id as int, j + 1));
        }
        j = j + 1;
    }
    proof {
        assert(out@ =~= base + shown_from(*tree, sort, recency_times(*tree), id as int));
    }
}

/// The directories shown in the tree, top to bottom: pre-order from the
/// root, honouring the sort order and collapsed directories; under the
/// order by time the siblings go by the keys of [`recency_times`].
pub fn visible_dirs(tree: &FileTree, sort: DirSortMode) -> (r: Vec<NodeId>)
    requires
        tree.wf(),
        sort == DirSortMode::Items ==> items_fit(*tree),
    ensures
        r@ == shown_from(*tree, sort, recency_times(*tree), tree.root_view() as int),
{
    let mut out: Vec<NodeId> = Vec::new();
    let root = tree.root();
    visible_from(tree, root, sort, &mut out);
    proof {
        assert(out@ =~= Seq::<NodeId>::empty() + shown_from(*tree, sort, recency_times(*tree), root as int));
    }
    out
}

/// Whether no node's items (files plus directories) overflow a `u64`,
/// which the order by items needs.
pub fn all_items_fit(tree: &FileTree) -> (b: bool)
    ensures
        b == items_fit(*tree),
{
    let n = tree.slot_count();
    let mut i: usize = 0;
    while i < n
        invariant
            n == tree.len(),
            i <= n,
            forall|j: int| 0 <= j < i ==> items_of(#[trigger] tree.at(j)) <= u64::MAX,
        decreases n - i,
    {
        let node = tree.node(i);
        if node.file_count.checked_add(node.subdir_count).is_none() {
            assert(items_of(tree.at(i as int)) > u64::MAX);
            return false;
        }
        i = i + 1;
    }
    true
}
/// The order by name ignores letter case: of two siblings in a children
/// order by name, the first has the smaller name once both are decoded
/// lossily and lowercased (compared byte by byte as UTF-8), or the same
/// lowercased name and the earlier place in the children list.
pub proof fn lemma_name_order_ignores_case(t: FileTree, times: Seq<u128>, parent: NodeId, r: Seq<NodeId>)
    requires
        is_child_order(t, DirSortMode::Name, times, parent, r),
    ensures
        forall|i: int, j: int|
            0 <= i < j < r.len() ==> {
                let a = encode_utf8(lowercase(lossy_utf8(t.name_of(#[trigger] r[i] as int))));
                let b = encode_utf8(lowercase(lossy_utf8(t.name_of(#[trigger] r[j] as int))));
                lex_lt(a, b) || (a == b && r[i] < r[j])
            },
{
    assert forall|i: int, j: int| 0 <= i < j < r.len() implies {
        let a = encode_utf8(lowercase(lossy_utf8(t.name_of(#[trigger] r[i] as int))));
        let b = encode_utf8(lowercase(lossy_utf8(t.name_of(#[trigger] r[j] as int))));
        lex_lt(a, b) || (a == b && r[i] < r[j])
    } by {
        assert(shown_before(t, DirSortMode::Name, times, r[i], r[j]));
    }
}
/// The orders by number, stated on the nodes: by size the larger comes
/// first; by items the one with more files and directories below it, or
/// as many and at least as many bytes; by time, with the keys of
/// [`recency_times`], the more recently modified comes first (for times
/// within 2^127 nanoseconds of the epoch, where the keys are exact).
pub proof fn lemma_number_orders(t: FileTree, sort: DirSortMode, parent: NodeId, r: Seq<NodeId>)
    requires
        is_child_order(t, sort, recency_times(t), parent, r),
    ensures
        forall|i: int, j: int|
            0 <= i < j < r.len() ==> {
                let a = t.at(#[trigger] r[i] as int);
                let b = t.at(#[trigger] r[j] as int);
                &&& sort == DirSortMode::Size ==> a.size >= b.size
                &&& sort == DirSortMode::Items ==> a.file_count + a.subdir_count > b.file_count + b.subdir_count
                    || (a.file_count + a.subdir_count == b.file_count + b.subdir_count && a.size >= b.size)
                &&& sort == DirSortMode::Recent && -0x8000_0000_0000_0000_0000_0000_0000_0000 <= signed_offset(
                    epoch_offset(a.modified),
                ) < 0x8000_0000_0000_0000_0000_0000_0000_0000 && -0x8000_0000_0000_0000_0000_0000_0000_0000
                    <= signed_offset(epoch_offset(b.modified)) < 0x8000_0000_0000_0000_0000_0000_0000_0000
                    ==> signed_offset(epoch_offset(a.modified)) >= signed_offset(epoch_offset(b.modified))
            },
{
    let l = live_only(t.nodes_view(), t.kids_of(parent as int));
    lemma_live_only(t.nodes_view(), t.kids_of(parent as int));
    assert forall|i: int, j: int| 0 <= i < j < r.len() implies {
        let a = t.at(#[trigger] r[i] as int);
        let b = t.at(#[trigger] r[j] as int);
        &&& sort == DirSortMode::Size ==> a.size >= b.size
        &&& sort == DirSortMode::Items ==> a.file_count + a.subdir_count > b.file_count + b.subdir_count
            || (a.file_count + a.subdir_count == b.file_count + b.subdir_count && a.size >= b.size)
        &&& sort == DirSortMode::Recent && -0x8000_0000_0000_0000_0000_0000_0000_0000 <= signed_offset(
            epoch_offset(a.modified),
        ) < 0x8000_0000_0000_0000_0000_0000_0000_0000 && -0x8000_0000_0000_0000_0000_0000_0000_0000
            <= signed_offset(epoch_offset(b.modified)) < 0x8000_0000_0000_0000_0000_0000_0000_0000
            ==> signed_offset(epoch_offset(a.modified)) >= signed_offset(epoch_offset(b.modified))
    } by {
        assert(shown_before(t, sort, recency_times(t), r[i], r[j]));
        assert(r.contains(r[i]) && r.contains(r[j]));
        assert(l.contains(r[i]) && l.contains(r[j]));
    }
}
} // verus!

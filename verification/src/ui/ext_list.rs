//! Orders of the file-type list.

use vstd::prelude::*;
use crate::app::ExtSortMode;
use crate::paths::to_vec;
use crate::sorting::{desc_key, is_bytes_order, is_key_order, key_views, order_by_bytes, order_by_keys};

verus! {

/// The sort keys of the order by size: largest total first.
pub open spec fn size_keys(s: Seq<(String, u64, usize)>) -> Seq<u128> {
    Seq::new(s.len(), |i: int| desc_key(s[i].1))
}

/// The sort keys of the order by count: most files first, then largest
/// total.
pub open spec fn count_keys(s: Seq<(String, u64, usize)>) -> Seq<u128> {
    Seq::new(
        s.len(),
        |i: int| ((u64::MAX - s[i].2) * 0x1_0000_0000_0000_0000 + (u64::MAX - s[i].1)) as u128,
    )
}

/// The sort keys of the order by name: the extension's UTF-8 bytes.
pub open spec fn name_keys(s: Seq<(String, u64, usize)>) -> Seq<Seq<u8>> {
    Seq::new(s.len(), |i: int| vstd::utf8::encode_utf8(s[i].0@))
}

/// `ord` is the order of `s` under `mode`: by total size, largest first;
/// by file count, most first, then by size; by name in byte order. Equal
/// keys keep their order.
pub open spec fn is_ext_order(s: Seq<(String, u64, usize)>, mode: ExtSortMode, ord: Seq<usize>) -> bool {
    match mode {
        ExtSortMode::Size => is_key_order(size_keys(s), ord),
        ExtSortMode::Count => is_key_order(count_keys(s), ord),
        ExtSortMode::Name => is_bytes_order(name_keys(s), ord),
    }
}

/// A display copy of the per-extension totals in the order `mode`.
pub fn sorted_stats(stats: &Vec<(String, u64, usize)>, mode: ExtSortMode) -> (r: Vec<(String, u64, usize)>)
    ensures
        exists|ord: Seq<usize>|
            #[trigger] is_ext_order(stats@, mode, ord) && r@ == Seq::new(ord.len(), |i: int| stats@[ord[i] as int]),
{
    let n = stats.len();
    let order = match mode {
        ExtSortMode::Name => {
            let mut keys: Vec<Vec<u8>> = Vec::new();
            let mut m: usize = 0;
            while m < n
                invariant
                    n == stats@.len(),
                    m <= n,
                    keys@.len() == m,
                    forall|q: int| 0 <= q < m ==> (#[trigger] keys@[q])@ == name_keys(stats@)[q],
                decreases n - m,
            {
                let b = stats[m].0.as_str().as_bytes();
                assert(b@ == vstd::utf8::encode_utf8(stats@[m as int].0@));
                keys.push(to_vec(b));
                m = m + 1;
            }
            assert(key_views(keys@) =~= name_keys(stats@));
            order_by_bytes(&keys)
        },
        _ => {
            let mut keys: Vec<u128> = Vec::new();
            let mut m: usize = 0;
            while m < n
                invariant
                    n == stats@.len(),
                    m <= n,
                    mode != ExtSortMode::Name,
                    keys@.len() == m,
                    forall|q: int|
                        0 <= q < m ==> #[trigger] keys@[q] == if mode == ExtSortMode::Size {
                            size_keys(stats@)[q]
                        } else {
                            count_keys(stats@)[q]
                        },
                decreases n - m,
            {
                let e = &stats[m];
                let k: u128 = if mode == ExtSortMode::Size {
                    (u64::MAX - e.1) as u128
                } else {
                    let hi = (u64::MAX - e.2 as u64) as u128;
                    let lo = (u64::MAX - e.1) as u128;
                    assert(hi * 0x1_0000_0000_0000_0000 + lo <= u128::MAX) by (nonlinear_arith)
                        requires
                            hi <= u64::MAX,
                            lo <= u64::MAX,
                    ;
                    hi * 0x1_0000_0000_0000_0000 + lo
                };
                keys.push(k);
                m = m + 1;
            }
            proof {
                if mode == ExtSortMode::Size {
                    assert(keys@ =~= size_keys(stats@));
                } else {
                    assert(keys@ =~= count_keys(stats@));
                }
            }
            order_by_keys(&keys)
        },
    };
    let mut r: Vec<(String, u64, usize)> = Vec::new();
    let mut q: usize = 0;
    while q < order.len()
        invariant
            is_ext_order(stats@, mode, order@),
            order@.len() == stats@.len(),
            q <= order@.len(),
            r@ == Seq::new(q as nat, |i: int| stats@[order@[i] as int]),
        decreases order@.len() - q,
    {
        let o = order[q];
        proof {
            match mode {
                ExtSortMode::Name => assert(order@[q as int] < name_keys(stats@).len()),
                ExtSortMode::Size => assert(order@[q as int] < size_keys(stats@).len()),
                ExtSortMode::Count => assert(order@[q as int] < count_keys(stats@).len()),
            }
        }
        let e = &stats[o];
        r.push((e.0.clone(), e.1, e.2));
        assert(r@ =~= Seq::new((q + 1) as nat, |i: int| stats@[order@[i] as int]));
        q = q + 1;
    }
    r
}

} // verus!

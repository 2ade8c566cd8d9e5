//! Which rectangles of the treemap are shown dimmed.

use vstd::prelude::*;
use vstd::utf8::{decode_utf8, encode_utf8, valid_utf8};
use crate::flywheel::same_text;
use crate::scanner::tree::{FileTree, NodeId};
use crate::text::{lossy_utf8, lowercase, to_lowercase};

verus! {

/// `hay` holds `needle` as a run of consecutive bytes.
pub open spec fn holds_run(hay: Seq<u8>, needle: Seq<u8>) -> bool {
    exists|i: int| 0 <= i && i + needle.len() <= hay.len() && #[trigger] hay.subrange(i, i + needle.len()) == needle
}

/// Whether `hay` holds `needle` as a run of bytes, as `str::contains`
/// finds a text in another.
pub fn contains_bytes(hay: &[u8], needle: &[u8]) -> (r: bool)
    ensures
        r == holds_run(hay@, needle@),
{
    let n = hay.len();
    let m = needle.len();
    if m > n {
        return false;
    }
    let mut i: usize = 0;
    while i <= n - m
        invariant
            n == hay@.len(),
            m == needle@.len(),
            m <= n,
            i <= n - m + 1,
            forall|k: int| 0 <= k < i ==> #[trigger] hay@.subrange(k, k + m) != needle@,
        decreases n - m + 1 - i,
    {
        let mut j: usize = 0;
        while j < m && hay[i + j] == needle[j]
            invariant
                n == hay@.len(),
                m == needle@.len(),
                i + m <= n,
                j <= m,
                forall|q: int| 0 <= q < j ==> hay@[i + q] == needle@[q],
            decreases m - j,
        {
            j = j + 1;
        }
        if j == m {
            assert(hay@.subrange(i as int, i + m) =~= needle@);
            return true;
        }
        assert(hay@.subrange(i as int, i + m)[j as int] != needle@[j as int]);
        i = i + 1;
    }
    false
}

/// The extension of node `id` as text, when it has one in valid UTF-8.
pub open spec fn ext_text(t: FileTree, id: int) -> Option<Seq<char>> {
    match t.at(id).ext_ref() {
        Some(e) => if valid_utf8(t.arena().slice(e)) {
            Some(decode_utf8(t.arena().slice(e)))
        } else {
            None
        },
        None => None,
    }
}

/// A rectangle is dimmed when a file type is selected and the node is not
/// of it, or when a search runs and the node's lowercased name does not
/// hold the lowercased query.
pub open spec fn dimmed(t: FileTree, id: int, selected_ext: Option<Seq<char>>, query: Option<Seq<char>>) -> bool {
    ||| (selected_ext matches Some(e) && ext_text(t, id) != Some(e))
    ||| (query matches Some(q) && !holds_run(
        encode_utf8(lowercase(lossy_utf8(t.name_of(id)))),
        encode_utf8(q),
    ))
}

/// Whether the rectangle of `id` is drawn dimmed; `selected_ext` is the
/// selected file type, `query_lower` the lowercased search, each if any.
pub fn is_dimmed(tree: &FileTree, id: NodeId, selected_ext: Option<&str>, query_lower: Option<&str>) -> (b: bool)
    requires
        tree.wf(),
        id < tree.len(),
    ensures
        b == dimmed(
            *tree,
            id as int,
            match selected_ext {
                Some(e) => Some(e@),
                None => None,
            },
            match query_lower {
                Some(q) => Some(q@),
                None => None,
            },
        ),
{
    if let Some(sel) = selected_ext {
        let other = match tree.extension(id) {
            Some(e) => !same_text(e, sel),
            None => true,
        };
        if other {
            return true;
        }
    }
    match query_lower {
        Some(q) => {
            let name = tree.name(id);
            let low = to_lowercase(name.as_str());
            !contains_bytes(low.as_str().as_bytes(), q.as_bytes())
        },
        None => false,
    }
}

/// The bytes of `needle` occur in `hay` starting at position `i`, one
/// after the other.
pub open spec fn occurs_at(hay: Seq<u8>, needle: Seq<u8>, i: int) -> bool {
    &&& 0 <= i
    &&& i + needle.len() <= hay.len()
    &&& forall|k: int| 0 <= k < needle.len() ==> #[trigger] hay[i + k] == needle[k]
}

/// With no file type selected, a search dims a rectangle exactly when the
/// query's bytes occur nowhere in the node's lowercased name, wherever in
/// the name they would start; a query found in the middle of the name
/// leaves it undimmed.
pub proof fn lemma_search_dims_non_matches(t: FileTree, id: int, q: Seq<char>)
    ensures
        dimmed(t, id, None, Some(q)) <==> !exists|i: int|
            #[trigger] occurs_at(encode_utf8(lowercase(lossy_utf8(t.name_of(id)))), encode_utf8(q), i),
{
    let hay = encode_utf8(lowercase(lossy_utf8(t.name_of(id))));
    let needle = encode_utf8(q);
    if holds_run(hay, needle) {
        let i = choose|i: int| 0 <= i && i + needle.len() <= hay.len() && #[trigger] hay.subrange(i, i + needle.len()) == needle;
        assert forall|k: int| 0 <= k < needle.len() implies #[trigger] hay[i + k] == needle[k] by {
            assert(hay.subrange(i, i + needle.len())[k] == hay[i + k]);
        }
        assert(occurs_at(hay, needle, i));
    }
    if exists|i: int| #[trigger] occurs_at(hay, needle, i) {
        let i = choose|i: int| #[trigger] occurs_at(hay, needle, i);
        assert forall|k: int| 0 <= k < needle.len() implies hay.subrange(i, i + needle.len())[k] == needle[k] by {
            assert(hay[i + k] == needle[k]);
        }
        assert(hay.subrange(i, i + needle.len()) =~= needle);
    }
}
/// The two reasons to dim add up: with neither a file type nor a search
/// nothing is dimmed, and with both a rectangle is dimmed exactly when
/// either alone would dim it.
pub proof fn lemma_dim_reasons_combine(t: FileTree, id: int, selected_ext: Option<Seq<char>>, query: Option<Seq<char>>)
    ensures
        !dimmed(t, id, None, None),
        dimmed(t, id, selected_ext, query) == (dimmed(t, id, selected_ext, None) || dimmed(t, id, None, query)),
        selected_ext matches Some(e) ==> (dimmed(t, id, selected_ext, None) <==> ext_text(t, id) != Some(e)),
{
}
} // verus!

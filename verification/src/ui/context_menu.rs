//! The title line of the context menu.

use vstd::prelude::*;

verus! {

/// The longest name shown whole in the menu title, in characters.
pub const TITLE_MAX_CHARS: usize = 32;

/// The menu title for a name: the name itself when it has at most 32
/// characters, else its first 30 and an ellipsis.
pub open spec fn title_of(name: Seq<char>) -> Seq<char> {
    if name.len() > TITLE_MAX_CHARS {
        name.take(30) + "…"@
    } else {
        name
    }
}

/// See [`title_of`].
pub fn menu_title(name: &str) -> (r: String)
    ensures
        r@ == title_of(name@),
{
    let n = name.unicode_len();
    if n > TITLE_MAX_CHARS {
        let mut r = name.substring_char(0, 30).to_owned();
        r.append("…");
        r
    } else {
        name.to_owned()
    }
}

} // verus!

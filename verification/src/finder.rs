//! The AppleScript that opens Finder's information window for a path.

use vstd::prelude::*;
use crate::text::{lossy_utf8, utf8_lossy};

verus! {

/// `s` made safe inside an AppleScript string literal: each backslash and
/// each double quote gets a backslash before it.
pub open spec fn escape_quoted(s: Seq<char>) -> Seq<char>
    decreases s.len(),
{
    if s.len() == 0 {
        s
    } else {
        let c = s.last();
        escape_quoted(s.drop_last()) + if c == '\\' || c == '"' {
            seq!['\\', c]
        } else {
            seq![c]
        }
    }
}

/// A run without backslashes or quotes escapes to itself.
proof fn lemma_plain_run(s: Seq<char>, start: int, i: int)
    requires
        0 <= start <= i <= s.len(),
        forall|k: int| start <= k < i ==> s[k] != '\\' && s[k] != '"',
    ensures
        escape_quoted(s.take(i)) == escape_quoted(s.take(start)) + s.subrange(start, i),
    decreases i - start,
{
    if i > start {
        lemma_plain_run(s, start, i - 1);
        assert(s.take(i).drop_last() =~= s.take(i - 1));
        assert(s.take(i).last() == s[i - 1]);
        assert(s.subrange(start, i - 1) + seq![s[i - 1]] =~= s.subrange(start, i));
        assert(escape_quoted(s.take(start)) + s.subrange(start, i - 1) + seq![s[i - 1]] =~= escape_quoted(
            s.take(start),
        ) + s.subrange(start, i));
    } else {
        assert(s.subrange(start, i) =~= Seq::<char>::empty());
        assert(escape_quoted(s.take(start)) + Seq::<char>::empty() =~= escape_quoted(s.take(start)));
    }
}

/// See [`escape_quoted`].
pub fn escape_for_applescript(s: &str) -> (r: String)
    ensures
        r@ == escape_quoted(s@),
{
    let n = s.unicode_len();
    let mut r = String::new();
    let mut start: usize = 0;
    let mut i: usize = 0;
    assert(s@.take(0) =~= Seq::<char>::empty());
    while i < n
        invariant
            n == s@.len(),
            start <= i <= n,
            r@ == escape_quoted(s@.take(start as int)),
            forall|k: int| start <= k < i ==> s@[k] != '\\' && s@[k] != '"',
        decreases n - i,
    {
        let c = s.get_char(i);
        if c == '\\' || c == '"' {
            proof {
                lemma_plain_run(s@, start as int, i as int);
                let t = s@.take(i + 1);
                assert(t.drop_last() =~= s@.take(i as int));
                assert(t.last() == c);
            }
            r.append(s.substring_char(start, i));
            if c == '\\' {
                r.append("\\\\");
                proof {
                    reveal_strlit("\\\\");
                }
            } else {
                r.append("\\\"");
                proof {
                    reveal_strlit("\\\"");
                }
            }
            assert(r@ =~= escape_quoted(s@.take(i + 1)));
            start = i + 1;
        }
        i = i + 1;
    }
    proof {
        lemma_plain_run(s@, start as int, n as int);
        assert(s@.take(n as int) =~= s@);
    }
    r.append(s.substring_char(start, n));
    r
}

/// The AppleScript that has Finder open the information window of the
/// path, decoded lossily and escaped.
pub open spec fn info_script(path: Seq<u8>) -> Seq<char> {
    "tell application \"Finder\"\nactivate\nopen information window of (POSIX file \""@ + escape_quoted(
        lossy_utf8(path),
    ) + "\" as alias)\nend tell"@
}

/// See [`info_script`].
pub fn get_info_script(path: &[u8]) -> (r: String)
    ensures
        r@ == info_script(path@),
{
    let text = utf8_lossy(path);
    let mut r = String::new();
    r.append("tell application \"Finder\"\nactivate\nopen information window of (POSIX file \"");
    r.append(escape_for_applescript(text.as_str()).as_str());
    r.append("\" as alias)\nend tell");
    r
}

} // verus!

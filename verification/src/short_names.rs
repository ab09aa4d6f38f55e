//! Short type names.
use vstd::prelude::*;
use vstd::string::StrSliceExecFns;

verus! {

/// Where the short name starts: after the last `:` that comes before the first `<`, scanning
/// from `i` with `acc` the start found so far.
pub open spec fn short_name_start(s: Seq<char>, i: int, acc: int) -> int
    decreases s.len() - i,
{
    if i < 0 || i >= s.len() || s[i] == '<' {
        acc
    } else if s[i] == ':' {
        short_name_start(s, i + 1, i + 1)
    } else {
        short_name_start(s, i + 1, acc)
    }
}

/// A type path without its leading module path: what follows the last `:` before the first
/// `<`.
pub open spec fn short_name(s: Seq<char>) -> Seq<char> {
    s.skip(short_name_start(s, 0, 0))
}

proof fn lemma_short_name_start(s: Seq<char>, i: int, acc: int)
    requires
        0 <= acc <= i <= s.len(),
    ensures
        acc <= short_name_start(s, i, acc) <= s.len(),
    decreases s.len() - i,
{
    if i < s.len() && s[i] != '<' {
        if s[i] == ':' {
            lemma_short_name_start(s, i + 1, i + 1);
        } else {
            lemma_short_name_start(s, i + 1, acc);
        }
    }
}

/// Trims the module path off a type path: `alloc::vec::Vec<i32>` gives `Vec<i32>`.
pub fn trim_type_path(s: &str) -> (r: &str)
    ensures
        r@ == short_name(s@),
{
    let len = s.unicode_len();
    let mut last_colon_seen: usize = 0;
    let mut i: usize = 0;
    while i < len
        invariant
            len == s@.len(),
            last_colon_seen <= i <= len,
            short_name_start(s@, i as int, last_colon_seen as int) == short_name_start(s@, 0, 0),
        ensures
            last_colon_seen <= i <= len,
            short_name_start(s@, i as int, last_colon_seen as int) == short_name_start(s@, 0, 0),
            i == len || s@[i as int] == '<',
        decreases len - i,
    {
        let c = s.get_char(i);
        if c == ':' {
            last_colon_seen = i + 1;
        } else if c == '<' {
            break;
        }
        i = i + 1;
    }
    proof {
        lemma_short_name_start(s@, i as int, last_colon_seen as int);
    }
    s.substring_char(last_colon_seen, len)
}

} // verus!

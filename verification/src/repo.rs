use vstd::prelude::*;

pub mod cache;
pub mod graph;
pub mod results;
pub mod sql;
pub mod update;

verus! {

/// A character a repository name may hold: an ASCII letter, a digit, an
/// underscore or a hyphen.
pub open spec fn is_name_char(c: char) -> bool {
    ||| ('a' <= c && c <= 'z')
    ||| ('A' <= c && c <= 'Z')
    ||| ('0' <= c && c <= '9')
    ||| c == '_'
    ||| c == '-'
}

/// Whether `s` is an acceptable repository name: every character an ASCII
/// letter, digit, underscore or hyphen (the empty name passes too).
pub open spec fn is_valid_repo_name(s: Seq<char>) -> bool {
    forall|i: int| 0 <= i < s.len() ==> is_name_char(#[trigger] s[i])
}

/// Validates a repository name before any path is built from it.
pub fn valid_repo_name(name: &str) -> (r: bool)
    ensures
        r == is_valid_repo_name(name@),
{
    let n = name.unicode_len();
    let mut i: usize = 0;
    while i < n
        invariant
            n == name@.len(),
            0 <= i <= n,
            forall|k: int| 0 <= k < i ==> is_name_char(#[trigger] name@[k]),
        decreases n - i,
    {
        let c = name.get_char(i);
        if !(('a' <= c && c <= 'z') || ('A' <= c && c <= 'Z') || ('0' <= c && c <= '9') || c == '_'
            || c == '-') {
            return false;
        }
        i = i + 1;
    }
    true
}

} // verus!

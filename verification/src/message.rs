//! Helpers for notification text.

use vstd::prelude::*;

verus! {

/// How many leading characters of a commit id a short form keeps.
pub const SHORT_COMMIT_LENGTH: usize = 11;

/// The short form of a commit id: its first characters, or the whole id
/// when it is already short.
pub fn short_commit(commit: &str) -> (r: &str)
    ensures
        commit@.len() >= SHORT_COMMIT_LENGTH ==> r@ == commit@.subrange(
            0,
            SHORT_COMMIT_LENGTH as int,
        ),
        commit@.len() < SHORT_COMMIT_LENGTH ==> r@ == commit@,
{
    let n = commit.unicode_len();
    if n <= SHORT_COMMIT_LENGTH {
        proof {
            assert(commit@.subrange(0, commit@.len() as int) =~= commit@);
        }
        commit.substring_char(0, n)
    } else {
        commit.substring_char(0, SHORT_COMMIT_LENGTH)
    }
}

} // verus!

//! Incremental branch-reachability cache for git repositories.
//!
//! The library keeps a persistent index answering "which watched branches
//! currently contain commit C?" and keeps that index consistent as branch
//! tips move forward or get rewritten, without re-scanning the whole commit
//! history on every sweep.

use vstd::prelude::*;

pub mod chat;
pub mod command;
pub mod condition;
pub mod error;
pub mod github;
pub mod message;
pub mod pattern;
pub mod repo;

verus! {

/// True when `pre` is a prefix of `s`.
pub open spec fn is_prefix_of(pre: Seq<char>, s: Seq<char>) -> bool {
    pre.len() <= s.len() && s.subrange(0, pre.len() as int) == pre
}

/// Relies on `String::push`: appends exactly one character.
#[verifier::external_body]
pub(crate) fn push_char(s: &mut String, c: char)
    ensures
        final(s)@ == old(s)@.push(c),
{
    s.push(c)
}

} // verus!

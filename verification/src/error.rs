use vstd::prelude::*;

verus! {

/// Errors surfaced by the library's fallible operations.
#[derive(Debug)]
pub enum Error {
    /// A quoted section of a raw command line was never closed.
    UnclosedQuote,
    /// A backslash escape at the very end of a raw command line.
    BadEscape,
    /// The store has no head record for this branch.
    UnknownBranch(String),
    /// The commit graph has no remote branch of this name.
    UnknownRemoteBranch(String),
    /// An error reported by the underlying database.
    DB(rusqlite::Error),
    /// A subscriber record that carries neither a mention nor a user name.
    InvalidSubscriber(crate::chat::settings::SubscriberCompat),
    /// Subscribing a subscriber that is already present.
    AlreadySubscribed,
    /// Unsubscribing a subscriber that is not present.
    NotSubscribed,
}

} // verus!

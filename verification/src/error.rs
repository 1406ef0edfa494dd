//! The ways in which an operation of a store can be turned down.
use vstd::prelude::*;

verus! {

/// Why an operation was turned down. A store that turns an operation down is
/// left exactly as it was.
#[derive(Clone, Copy, Debug, PartialEq, Eq, Structural)]
pub enum SocialError {
    /// The anonymous identity was used where an owner is needed.
    Unauthenticated,
    /// The text is empty, or nothing but whitespace.
    InvalidContent,
    /// There is no such user, post or edge.
    NotFound,
    /// The caller is known, but does not own the record.
    Forbidden,
    /// The identity already has a profile.
    AlreadyExists,
    /// The edge is already there.
    AlreadyFollowing,
    /// There is no such edge to remove.
    NotFollowing,
    /// Another identity holds the username.
    UsernameTaken,
    /// An identity cannot follow itself.
    SelfFollow,
    /// The record would be longer than a table can hold, or the store has
    /// run out of post ids.
    CapacityExceeded,
}

} // verus!

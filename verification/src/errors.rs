//! The two-kind error taxonomy: `Unauthorized` for a caller that lacks the
//! required relationship (owner, member, or message author), and `Custom`
//! for every domain-validation failure, carrying its closed reason.

use vstd::prelude::*;

verus! {

/// The reason of a domain-validation failure.
#[derive(Debug, Clone, Copy, PartialEq, Eq, Structural)]
pub enum Reason {
    /// The named channel identifier is unknown.
    ChannelNotFound,
    /// The account is already a member of the channel.
    AlreadyMember,
    /// The account is not a member of the channel.
    NotMember,
    /// A pending join request for the same (sender, channel) pair exists.
    DuplicatePending,
    /// The message identifier was never issued, or its record was removed.
    MessageNotFound,
    /// An identifier counter would wrap: a fatal condition, the call is
    /// refused rather than reusing identifiers.
    AllocationExhausted,
}

/// A typed failure returned to the caller; never a fault.
#[derive(Debug, Clone, Copy, PartialEq, Eq, Structural)]
pub enum SquidChatError {
    Unauthorized,
    Custom(Reason),
}

} // verus!

//! The plain data model: identifiers, channel metadata, join requests,
//! messages, and the shape every paginated query returns.

use vstd::prelude::*;

verus! {

/// An attested account identifier, supplied by the execution environment.
pub type AccountId = u64;

/// A channel identifier: assigned from a monotonic counter, never reused.
pub type ChannelId = u64;

/// A join-request identifier: assigned from a global monotonic counter.
pub type RequestId = u64;

/// A per-channel message identifier: a monotonic counter starting at 0.
pub type MessageId = u32;

/// A monotonic logical timestamp, supplied by the execution environment.
pub type Timestamp = u64;

/// Channel metadata. The owner is fixed at creation and never changes;
/// name and image are replaced together by an owner-only update.
#[derive(Debug, Clone, PartialEq, Eq)]
pub struct Channel {
    pub owner: AccountId,
    pub name: String,
    pub image: Option<String>,
}

/// A channel together with its identifier, as listed queries return it.
#[derive(Debug, Clone, PartialEq, Eq)]
pub struct ChannelRecord {
    pub channel_id: ChannelId,
    pub channel: Channel,
}

/// The settlement state of a join request: a closed tri-state rather than
/// a sentinel value.
#[derive(Debug, Clone, Copy, PartialEq, Eq, Structural)]
pub enum Approval {
    Unset,
    Approved,
    Rejected,
}

/// A join request. It is pending while `approval` is `Unset`; settling it
/// records the decision and delists it from its channel's pending list.
#[derive(Debug, Clone, Copy, PartialEq, Eq, Structural)]
pub struct Request {
    pub sender: AccountId,
    pub channel_id: ChannelId,
    pub approval: Approval,
    pub requested_at: Timestamp,
}

/// A request together with its identifier, as listed queries return it.
#[derive(Debug, Clone, Copy, PartialEq, Eq, Structural)]
pub struct RequestRecord {
    pub request_id: RequestId,
    pub request: Request,
}

/// The tally of one batch approval call: every decision lands in exactly
/// one of the three counts.
#[derive(Debug, Clone, Copy, PartialEq, Eq, Structural)]
pub struct ApprovalSummary {
    pub approved_count: usize,
    pub rejected_count: usize,
    pub not_found_count: usize,
}

/// A message in a channel's ledger.
#[derive(Debug, Clone, PartialEq, Eq)]
pub struct Message {
    pub sender: AccountId,
    pub content: String,
    pub send_at: Timestamp,
}

/// A message together with its per-channel identifier, as the ledger query
/// returns it.
#[derive(Debug, Clone, PartialEq, Eq)]
pub struct MessageRecord {
    pub message_id: MessageId,
    pub message: Message,
}

/// One page of a listed query. `per_page` is the clamped page size actually
/// applied; `total` is the authoritative count of listable entries at the
/// moment of the read. The ledger query may return fewer than `per_page`
/// items even with `has_next_page` false, where entries inside the window
/// were tombstoned.
#[derive(Debug, Clone, PartialEq, Eq)]
pub struct Pagination<Item> {
    pub items: Vec<Item>,
    pub from: usize,
    pub per_page: usize,
    pub has_next_page: bool,
    pub total: usize,
}

} // verus!

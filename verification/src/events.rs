//! Domain events. Each successful mutation appends its events to the
//! directory's log for the external sink to deliver; payloads carry only
//! identifiers, never record contents.

use vstd::prelude::*;
use crate::types::{AccountId, ChannelId, MessageId, RequestId};

verus! {

#[derive(Debug, Clone, Copy, PartialEq, Eq, Structural)]
pub struct ChannelCreated {
    pub channel_id: ChannelId,
    pub owner: AccountId,
}

#[derive(Debug, Clone, Copy, PartialEq, Eq, Structural)]
pub struct ChannelUpdated {
    pub channel_id: ChannelId,
}

#[derive(Debug, Clone, Copy, PartialEq, Eq, Structural)]
pub struct MemberJoined {
    pub channel_id: ChannelId,
    pub account: AccountId,
}

#[derive(Debug, Clone, Copy, PartialEq, Eq, Structural)]
pub struct MemberLeft {
    pub channel_id: ChannelId,
    pub account: AccountId,
}

#[derive(Debug, Clone, Copy, PartialEq, Eq, Structural)]
pub struct RequestSent {
    pub channel_id: ChannelId,
    pub request_id: RequestId,
    pub sender: AccountId,
}

/// The summary of one batch approval call.
#[derive(Debug, Clone, Copy, PartialEq, Eq, Structural)]
pub struct ApprovalSubmitted {
    pub channel_id: ChannelId,
    pub approved_count: usize,
    pub rejected_count: usize,
    pub not_found_count: usize,
}

#[derive(Debug, Clone, Copy, PartialEq, Eq, Structural)]
pub struct MessageSent {
    pub channel_id: ChannelId,
    pub message_id: MessageId,
}

#[derive(Debug, Clone, Copy, PartialEq, Eq, Structural)]
pub struct MessageDeleted {
    pub channel_id: ChannelId,
    pub message_id: MessageId,
}

/// One entry of the directory's event log.
#[derive(Debug, Clone, Copy, PartialEq, Eq, Structural)]
pub enum Event {
    ChannelCreated(ChannelCreated),
    ChannelUpdated(ChannelUpdated),
    MemberJoined(MemberJoined),
    MemberLeft(MemberLeft),
    RequestSent(RequestSent),
    ApprovalSubmitted(ApprovalSubmitted),
    MessageSent(MessageSent),
    MessageDeleted(MessageDeleted),
}

} // verus!

//! The directory state: every channel with its metadata, members, pending
//! join requests and message ledger; the global request store; the reverse
//! member-to-channels index; and the event log.
//!
//! [`Directory::wf`] is the invariant every public operation requires and
//! preserves. Its central conjunct, [`Directory::indexes_consistent`], states
//! the bidirectional-index law: an account stands in a channel's member list
//! iff that channel stands in the account's channel list.

use std::collections::HashMap;
use vstd::prelude::*;
use vstd::seq_lib::*;
use crate::events::{Event, MemberJoined, MemberLeft};
use crate::types::{
    AccountId, Approval, Channel, ChannelId, Message, MessageId, Request, RequestId,
};

verus! {

broadcast use vstd::std_specs::hash::group_hash_axioms;

/// The number of live (non-tombstoned) entries of a message ledger.
pub open spec fn count_live(s: Seq<Option<Message>>) -> nat
    decreases s.len(),
{
    if s.len() == 0 {
        0
    } else {
        count_live(s.drop_last()) + (if s.last() is Some {
            1nat
        } else {
            0nat
        })
    }
}

/// The per-channel state: metadata, the member list, the pending join
/// requests (in request order), and the append-and-tombstone ledger, whose
/// index is the per-channel message identifier.
pub struct ChannelState {
    pub owner: AccountId,
    pub name: String,
    pub image: Option<String>,
    pub members: Vec<AccountId>,
    pub pending: Vec<RequestId>,
    pub messages: Vec<Option<Message>>,
    pub live_messages: usize,
}

/// The whole directory. Channel identifiers are the indexes of `channels`,
/// request identifiers the indexes of `requests`: both counters are the
/// vector lengths, monotonic and never reused.
pub struct Directory {
    pub channels: Vec<ChannelState>,
    pub member_index: HashMap<AccountId, Vec<ChannelId>>,
    pub requests: Vec<Request>,
    pub events: Vec<Event>,
}

impl Directory {
    /// How many channels have been created.
    pub open spec fn channel_count(self) -> nat {
        self.channels@.len()
    }

    /// Whether a channel identifier has been issued.
    pub open spec fn has_channel(self, c: ChannelId) -> bool {
        (c as int) < self.channels@.len()
    }

    /// The state of channel `c`.
    pub open spec fn channel(self, c: ChannelId) -> ChannelState
        recommends
            self.has_channel(c),
    {
        self.channels@[c as int]
    }

    /// The owner of channel `c`.
    pub open spec fn owner_of(self, c: ChannelId) -> AccountId
        recommends
            self.has_channel(c),
    {
        self.channel(c).owner
    }

    /// The member list of channel `c`, in joining order.
    pub open spec fn members_of(self, c: ChannelId) -> Seq<AccountId>
        recommends
            self.has_channel(c),
    {
        self.channel(c).members@
    }

    /// Whether `a` is a member of channel `c` (the forward direction of the
    /// membership relation).
    pub open spec fn has_member(self, a: AccountId, c: ChannelId) -> bool {
        self.has_channel(c) && self.members_of(c).contains(a)
    }

    /// The channels account `a` is a member of, in joining order (the
    /// reverse direction of the membership relation).
    pub open spec fn member_channels(self, a: AccountId) -> Seq<ChannelId> {
        if self.member_index@.contains_key(a) {
            self.member_index@[a]@
        } else {
            Seq::empty()
        }
    }

    /// Whether the reverse index lists `a` as a member of `c`.
    pub open spec fn in_member_index(self, a: AccountId, c: ChannelId) -> bool {
        self.member_channels(a).contains(c)
    }

    /// How many join requests have been created.
    pub open spec fn request_count(self) -> nat {
        self.requests@.len()
    }

    /// Whether a request identifier has been issued.
    pub open spec fn has_request(self, r: RequestId) -> bool {
        (r as int) < self.requests@.len()
    }

    /// The request with identifier `r`.
    pub open spec fn request(self, r: RequestId) -> Request
        recommends
            self.has_request(r),
    {
        self.requests@[r as int]
    }

    /// The pending join requests of channel `c`, in request order.
    pub open spec fn pending_ids(self, c: ChannelId) -> Seq<RequestId>
        recommends
            self.has_channel(c),
    {
        self.channel(c).pending@
    }

    /// Whether `a` has a pending join request for channel `c`.
    pub open spec fn has_pending_from(self, a: AccountId, c: ChannelId) -> bool
        recommends
            self.has_channel(c),
    {
        exists|j: int|
            0 <= j < self.pending_ids(c).len() && self.request(
                self.pending_ids(c)[j],
            ).sender == a
    }

    /// The set of accounts with a pending join request for channel `c`.
    pub open spec fn pending_senders(self, c: ChannelId) -> Set<AccountId>
        recommends
            self.has_channel(c),
    {
        Set::new(|a: AccountId| self.has_pending_from(a, c))
    }

    /// The message ledger of channel `c`; a `None` entry is a tombstone.
    pub open spec fn messages_of(self, c: ChannelId) -> Seq<Option<Message>>
        recommends
            self.has_channel(c),
    {
        self.channel(c).messages@
    }

    /// The per-channel message counter: how many identifiers were issued.
    pub open spec fn message_count(self, c: ChannelId) -> nat {
        if self.has_channel(c) {
            self.messages_of(c).len()
        } else {
            0
        }
    }

    /// The message stored under `(c, m)`: `None` where the identifier was
    /// never issued or the record was removed.
    pub open spec fn message_at(self, c: ChannelId, m: MessageId) -> Option<Message> {
        if self.has_channel(c) && (m as int) < self.messages_of(c).len() {
            self.messages_of(c)[m as int]
        } else {
            None
        }
    }

    /// Member lists hold no duplicates.
    pub open spec fn member_lists_wf(self) -> bool {
        forall|c: int|
            0 <= c < self.channels@.len() ==> (#[trigger] self.channels@[c]).members@.no_duplicates()
    }

    /// Reverse-index lists hold no duplicates.
    pub open spec fn index_lists_wf(self) -> bool {
        forall|a: AccountId|
            self.member_index@.contains_key(a) ==> (#[trigger] self.member_index@[a])@.no_duplicates()
    }

    /// The bidirectional-index law: the two directions of the membership
    /// relation agree on every (account, channel) pair.
    pub open spec fn indexes_consistent(self) -> bool {
        forall|a: AccountId, c: ChannelId|
            #![trigger self.has_member(a, c)]
            #![trigger self.in_member_index(a, c)]
            self.has_member(a, c) <==> self.in_member_index(a, c)
    }

    /// Every request names an issued channel, and is unsettled exactly while
    /// that channel's pending list holds it.
    pub open spec fn requests_wf(self) -> bool {
        forall|r: int|
            0 <= r < self.requests@.len() ==> {
                let req = #[trigger] self.requests@[r];
                &&& self.has_channel(req.channel_id)
                &&& (req.approval == Approval::Unset <==> self.channel(
                    req.channel_id,
                ).pending@.contains(r as RequestId))
            }
    }

    /// Every pending list holds issued request identifiers of its own
    /// channel, each unsettled, each from a sender who is not a member.
    pub open spec fn pending_lists_wf(self) -> bool {
        forall|c: int, j: int|
            0 <= c < self.channels@.len() && 0 <= j < self.channels@[c].pending@.len() ==> {
                let rid = #[trigger] self.channels@[c].pending@[j];
                &&& self.has_request(rid)
                &&& self.request(rid).channel_id == c as ChannelId
                &&& self.request(rid).approval == Approval::Unset
                &&& !self.has_member(self.request(rid).sender, c as ChannelId)
            }
    }

    /// At most one pending request per (sender, channel) pair.
    pub open spec fn pending_senders_unique(self) -> bool {
        forall|c: int, j1: int, j2: int|
            0 <= c < self.channels@.len() && 0 <= j1 < j2 < self.channels@[c].pending@.len()
                ==> self.request(#[trigger] self.channels@[c].pending@[j1]).sender != self.request(
                #[trigger] self.channels@[c].pending@[j2],
            ).sender
    }

    /// Ledger counters stay within the message-identifier range, and the
    /// live count of each channel is authoritative.
    pub open spec fn ledgers_wf(self) -> bool {
        forall|c: int|
            0 <= c < self.channels@.len() ==> {
                &&& (#[trigger] self.channels@[c]).messages@.len() <= u32::MAX as int
                &&& self.channels@[c].live_messages == count_live(self.channels@[c].messages@)
            }
    }

    /// The directory invariant: established by [`Directory::new`] and
    /// preserved by every public operation.
    pub open spec fn wf(self) -> bool {
        &&& self.member_lists_wf()
        &&& self.index_lists_wf()
        &&& self.indexes_consistent()
        &&& self.requests_wf()
        &&& self.pending_lists_wf()
        &&& self.pending_senders_unique()
        &&& self.ledgers_wf()
    }

    /// The metadata-and-identifier record of channel `c`, as read queries
    /// return it.
    pub open spec fn channel_info(self, c: ChannelId) -> Option<Channel> {
        if self.has_channel(c) {
            Some(
                Channel {
                    owner: self.channel(c).owner,
                    name: self.channel(c).name,
                    image: self.channel(c).image,
                },
            )
        } else {
            None
        }
    }

    /// The vector index of an issued channel identifier.
    pub(crate) fn channel_index(&self, channel_id: ChannelId) -> (i: usize)
        requires
            self.has_channel(channel_id),
        ensures
            i as int == channel_id as int,
            i < self.channels@.len(),
    {
        let n = self.channels.len();
        assert(channel_id < n as u64);
        channel_id as usize
    }

    /// Creates an empty directory: no channels, no requests, no members,
    /// no events.
    pub fn new() -> (d: Directory)
        ensures
            d.wf(),
            d.channel_count() == 0,
            d.request_count() == 0,
            d.events@ =~= Seq::<Event>::empty(),
            forall|a: AccountId| d.member_channels(a) =~= Seq::<ChannelId>::empty(),
    {
        Directory {
            channels: Vec::new(),
            member_index: HashMap::new(),
            requests: Vec::new(),
            events: Vec::new(),
        }
    }
}

/// The bidirectional-index law: in a well-formed directory, an account
/// stands in a channel's member list exactly when that channel stands in
/// the account's channel list — at every observable point, since every
/// operation requires and preserves [`Directory::wf`].
pub proof fn lemma_membership_bidirectional(d: Directory, a: AccountId, c: ChannelId)
    requires
        d.wf(),
    ensures
        d.has_member(a, c) <==> d.in_member_index(a, c),
{
}

/// The registry round trip: a channel identifier is retrievable through
/// [`Directory::channel_info`] exactly when it has been issued — channels
/// are never deleted, so an identifier once returned stays retrievable.
pub proof fn lemma_channel_round_trip(d: Directory, c: ChannelId)
    ensures
        d.channel_info(c) is Some <==> d.has_channel(c),
{
}

/// Two channel states agreeing on everything but the member list.
pub open spec fn channel_except_members(a: ChannelState, b: ChannelState) -> bool {
    &&& a.owner == b.owner
    &&& a.name == b.name
    &&& a.image == b.image
    &&& a.pending@ == b.pending@
    &&& a.messages@ == b.messages@
    &&& a.live_messages == b.live_messages
}

/// The membership-addition delta: `post` is `pre` with `a` appended to the
/// member list of channel `c`, the reverse index extended to match, one
/// `MemberJoined` event appended, and everything else unchanged.
pub open spec fn member_added(pre: Directory, post: Directory, c: ChannelId, a: AccountId) -> bool {
    &&& post.channels@.len() == pre.channels@.len()
    &&& post.members_of(c) == pre.members_of(c).push(a)
    &&& channel_except_members(pre.channel(c), post.channel(c))
    &&& forall|c2: int|
        0 <= c2 < pre.channels@.len() && c2 != c as int ==> post.channels@[c2] == pre.channels@[c2]
    &&& post.member_channels(a) == pre.member_channels(a).push(c)
    &&& forall|a2: AccountId| a2 != a ==> post.member_channels(a2) == pre.member_channels(a2)
    &&& post.requests@ == pre.requests@
    &&& post.events@ == pre.events@.push(Event::MemberJoined((MemberJoined { channel_id: c, account: a })))
}

/// The membership-removal delta: `post` is `pre` with `a` taken out of the
/// member list of channel `c`, the reverse index shrunk to match, one
/// `MemberLeft` event appended, and everything else unchanged.
pub open spec fn member_removed(pre: Directory, post: Directory, c: ChannelId, a: AccountId) -> bool {
    &&& post.channels@.len() == pre.channels@.len()
    &&& post.members_of(c) == pre.members_of(c).remove_value(a)
    &&& channel_except_members(pre.channel(c), post.channel(c))
    &&& forall|c2: int|
        0 <= c2 < pre.channels@.len() && c2 != c as int ==> post.channels@[c2] == pre.channels@[c2]
    &&& post.member_channels(a) == pre.member_channels(a).remove_value(c)
    &&& forall|a2: AccountId| a2 != a ==> post.member_channels(a2) == pre.member_channels(a2)
    &&& post.requests@ == pre.requests@
    &&& post.events@ == pre.events@.push(Event::MemberLeft((MemberLeft { channel_id: c, account: a })))
}

/// Whether a vector of identifiers holds `x`.
pub(crate) fn contains_u64(v: &Vec<u64>, x: u64) -> (r: bool)
    ensures
        r == v@.contains(x),
{
    let mut i: usize = 0;
    while i < v.len()
        invariant
            0 <= i <= v@.len(),
            forall|j: int| 0 <= j < i ==> v@[j] != x,
        decreases v@.len() - i,
    {
        if v[i] == x {
            assert(v@.contains(x));
            return true;
        }
        i += 1;
    }
    return false;
}

/// The index of the first occurrence of `x`, if any.
pub(crate) fn find_u64(v: &Vec<u64>, x: u64) -> (r: Option<usize>)
    ensures
        match r {
            Some(i) => i < v@.len() && v@[i as int] == x && (forall|j: int| 0 <= j < i ==> v@[j] != x),
            None => !v@.contains(x),
        },
{
    let mut i: usize = 0;
    while i < v.len()
        invariant
            0 <= i <= v@.len(),
            forall|j: int| 0 <= j < i ==> v@[j] != x,
        decreases v@.len() - i,
    {
        if v[i] == x {
            return Some(i);
        }
        i += 1;
    }
    return None;
}

/// A fresh vector holding the same identifiers.
pub(crate) fn copy_u64s(v: &Vec<u64>) -> (r: Vec<u64>)
    ensures
        r@ == v@,
{
    let mut r: Vec<u64> = Vec::new();
    let mut i: usize = 0;
    while i < v.len()
        invariant
            0 <= i <= v@.len(),
            r@ == v@.take(i as int),
        decreases v@.len() - i,
    {
        r.push(v[i]);
        proof {
            assert(v@.take(i + 1) =~= v@.take(i as int).push(v@[i as int]));
        }
        i += 1;
    }
    proof {
        assert(v@.take(v@.len() as int) =~= v@);
    }
    return r;
}

/// The invariant survives any change that leaves both index directions,
/// the pending lists and the request store untouched, provided the changed
/// ledgers keep their counter bound and live count.
pub(crate) proof fn lemma_wf_preserved(pre: Directory, post: Directory)
    requires
        pre.wf(),
        post.channels@.len() == pre.channels@.len(),
        forall|c: int|
            0 <= c < pre.channels@.len() ==> {
                &&& (#[trigger] post.channels@[c]).members@ == pre.channels@[c].members@
                &&& post.channels@[c].pending@ == pre.channels@[c].pending@
                &&& post.channels@[c].messages@.len() <= u32::MAX as int
                &&& post.channels@[c].live_messages == count_live(post.channels@[c].messages@)
            },
        post.member_index@ == pre.member_index@,
        post.requests@ == pre.requests@,
    ensures
        post.wf(),
{
    assert forall|a: AccountId, c: ChannelId|
        #![trigger post.has_member(a, c)]
        #![trigger post.in_member_index(a, c)]
        post.has_member(a, c) <==> post.in_member_index(a, c) by {
        assert(post.member_channels(a) == pre.member_channels(a));
        if (c as int) < pre.channels@.len() {
            assert(post.members_of(c) == pre.members_of(c));
        }
        assert(post.has_member(a, c) == pre.has_member(a, c));
        assert(pre.has_member(a, c) <==> pre.in_member_index(a, c));
    }
    assert(post.member_lists_wf()) by {
        assert forall|c: int|
            0 <= c < post.channels@.len() implies (#[trigger] post.channels@[c]).members@.no_duplicates() by {
            assert(post.channels@[c].members@ == pre.channels@[c].members@);
        }
    }
    assert(post.requests_wf()) by {
        assert forall|r: int| 0 <= r < post.requests@.len() implies {
            let req = #[trigger] post.requests@[r];
            &&& post.has_channel(req.channel_id)
            &&& (req.approval == Approval::Unset <==> post.channel(req.channel_id).pending@.contains(
                r as RequestId,
            ))
        } by {
            let req = post.requests@[r];
            assert(req == pre.requests@[r]);
            assert(post.channel(req.channel_id).pending@ == pre.channel(req.channel_id).pending@);
        }
    }
    assert(post.pending_lists_wf()) by {
        assert forall|c2: int, j: int|
            0 <= c2 < post.channels@.len() && 0 <= j < post.channels@[c2].pending@.len() implies {
            let rid = #[trigger] post.channels@[c2].pending@[j];
            &&& post.has_request(rid)
            &&& post.request(rid).channel_id == c2 as ChannelId
            &&& post.request(rid).approval == Approval::Unset
            &&& !post.has_member(post.request(rid).sender, c2 as ChannelId)
        } by {
            assert(post.channels@[c2].pending@ == pre.channels@[c2].pending@);
            let rid = pre.channels@[c2].pending@[j];
            assert(!pre.has_member(pre.request(rid).sender, c2 as ChannelId));
            assert(post.members_of(c2 as ChannelId) == pre.members_of(c2 as ChannelId));
        }
    }
    assert(post.pending_senders_unique()) by {
        assert forall|c2: int, j1: int, j2: int|
            0 <= c2 < post.channels@.len() && 0 <= j1 < j2 < post.channels@[c2].pending@.len() implies post.request(
            #[trigger] post.channels@[c2].pending@[j1],
        ).sender != post.request(#[trigger] post.channels@[c2].pending@[j2]).sender by {
            assert(post.channels@[c2].pending@ == pre.channels@[c2].pending@);
        }
    }
}

/// Removing the element at a first-occurrence index of a duplicate-free
/// sequence is `remove_value`, keeps the sequence duplicate-free, and takes
/// exactly that value's containment away.
pub(crate) proof fn lemma_remove_at(s: Seq<u64>, i: int)
    requires
        0 <= i < s.len(),
        s.no_duplicates(),
        forall|j: int| 0 <= j < i ==> s[j] != s[i],
    ensures
        s.remove(i) == s.remove_value(s[i]),
        s.remove(i).no_duplicates(),
        !s.remove(i).contains(s[i]),
        forall|y: u64| y != s[i] ==> (s.remove(i).contains(y) <==> s.contains(y)),
{
    s.index_of_first_ensures(s[i]);
    assert(s.contains(s[i])) by {
        assert(s[i] == s[i]);
    }
    let f = s.index_of_first(s[i]).unwrap();
    assert(f == i) by {
        if f < i {
            assert(s[f] == s[i]);
        } else if f > i {
            assert(s[i] != s[i]);
        }
    }
    s.remove_ensures(i);
    let t = s.remove(i);
    assert(t.no_duplicates()) by {
        assert forall|p: int, q: int| 0 <= p < q < t.len() implies t[p] != t[q] by {
            let p0 = if p < i {
                p
            } else {
                p + 1
            };
            let q0 = if q < i {
                q
            } else {
                q + 1
            };
            assert(t[p] == s[p0] && t[q] == s[q0]);
        }
    }
    assert(!t.contains(s[i])) by {
        if t.contains(s[i]) {
            let j = choose|j: int| 0 <= j < t.len() && t[j] == s[i];
            let j0 = if j < i {
                j
            } else {
                j + 1
            };
            assert(s[j0] == s[i] && j0 != i);
        }
    }
    assert forall|y: u64| y != s[i] implies (t.contains(y) <==> s.contains(y)) by {
        if t.contains(y) {
            let j = choose|j: int| 0 <= j < t.len() && t[j] == y;
            let j0 = if j < i {
                j
            } else {
                j + 1
            };
            assert(s[j0] == y);
        }
        if s.contains(y) {
            let j = choose|j: int| 0 <= j < s.len() && s[j] == y;
            if j < i {
                assert(t[j] == y);
            } else {
                assert(j > i);
                assert(t[j - 1] == y);
            }
        }
    }
}

} // verus!

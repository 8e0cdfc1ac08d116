//! The channel registry: creation (which seats the creator as the sole
//! first member in the same atomic step), owner-only metadata updates, and
//! the channel read queries.

use vstd::prelude::*;
use vstd::seq_lib::*;
use crate::directory::{count_live, ChannelState, Directory};
use crate::errors::{Reason, SquidChatError};
use crate::events::{ChannelCreated, ChannelUpdated, Event, MemberJoined};
use crate::pagination::{
    clamped_page_size, forward_end, forward_has_next, forward_start, forward_window,
};
use crate::types::{
    AccountId, Approval, Channel, ChannelId, ChannelRecord, Message, Pagination, RequestId,
};

verus! {

broadcast use vstd::std_specs::hash::group_hash_axioms;

impl Directory {
    /// Creates a channel owned by `caller` and, in the same atomic step,
    /// adds the creator as its sole first member. The new identifier is the
    /// next counter value; the only failure is counter exhaustion.
    pub fn new_channel(&mut self, caller: AccountId, name: String, image: Option<String>) -> (r:
        Result<ChannelId, SquidChatError>)
        requires
            old(self).wf(),
        ensures
            final(self).wf(),
            r is Ok <==> old(self).channels@.len() < usize::MAX,
            r matches Err(e) ==> {
                &&& *final(self) == *old(self)
                &&& e == SquidChatError::Custom(Reason::AllocationExhausted)
            },
            r matches Ok(id) ==> {
                &&& id as int == old(self).channel_count()
                &&& final(self).channel_count() == old(self).channel_count() + 1
                &&& final(self).has_channel(id)
                &&& final(self).owner_of(id) == caller
                &&& final(self).channel(id).name == name
                &&& final(self).channel(id).image == image
                &&& final(self).members_of(id) =~= seq![caller]
                &&& final(self).pending_ids(id) =~= Seq::<RequestId>::empty()
                &&& final(self).messages_of(id) =~= Seq::<Option<Message>>::empty()
                &&& forall|c2: int|
                    0 <= c2 < old(self).channels@.len()
                        ==> final(self).channels@[c2] == old(self).channels@[c2]
                &&& final(self).member_channels(caller) == old(self).member_channels(caller).push(
                    id,
                )
                &&& forall|a2: AccountId|
                    a2 != caller ==> final(self).member_channels(a2) == old(self).member_channels(
                        a2,
                    )
                &&& final(self).requests@ == old(self).requests@
                &&& final(self).events@ == old(self).events@.push(
                    Event::ChannelCreated((ChannelCreated { channel_id: id, owner: caller })),
                ).push(Event::MemberJoined((MemberJoined { channel_id: id, account: caller })))
            },
    {
        if self.channels.len() == usize::MAX {
            return Err(SquidChatError::Custom(Reason::AllocationExhausted));
        }
        let ghost pre = *self;
        let id = self.channels.len() as u64;
        self.channels.push(
            ChannelState {
                owner: caller,
                name,
                image,
                members: Vec::new(),
                pending: Vec::new(),
                messages: Vec::new(),
                live_messages: 0,
            },
        );
        self.events.push(Event::ChannelCreated(ChannelCreated { channel_id: id, owner: caller }));
        proof {
            let mid = *self;
            assert(mid.has_channel(id));
            assert(mid.member_lists_wf()) by {
                assert forall|c: int|
                    0 <= c < mid.channels@.len() implies (#[trigger] mid.channels@[c]).members@.no_duplicates() by {
                    if c < pre.channels@.len() {
                        assert(mid.channels@[c] == pre.channels@[c]);
                    } else {
                        assert(mid.channels@[c].members@.len() == 0);
                    }
                }
            }
            assert(mid.indexes_consistent()) by {
                assert forall|a: AccountId, c: ChannelId|
                    #![trigger mid.has_member(a, c)]
                    #![trigger mid.in_member_index(a, c)]
                    mid.has_member(a, c) <==> mid.in_member_index(a, c) by {
                    assert(mid.member_channels(a) == pre.member_channels(a));
                    if c == id {
                        assert(!mid.has_member(a, c)) by {
                            assert(mid.members_of(c).len() == 0);
                        }
                        assert(!pre.has_member(a, c));
                        assert(pre.has_member(a, c) <==> pre.in_member_index(a, c));
                    } else {
                        if (c as int) < pre.channels@.len() {
                            assert(mid.channels@[c as int] == pre.channels@[c as int]);
                        }
                        assert(mid.has_member(a, c) == pre.has_member(a, c));
                        assert(pre.has_member(a, c) <==> pre.in_member_index(a, c));
                    }
                }
            }
            assert(!mid.has_member(caller, id)) by {
                assert(mid.members_of(id).len() == 0);
            }
        }
        self.add_member_entry(id, caller);
        proof {
            let pre2 = *old(self);
            let post = *self;
            assert(post.members_of(id) =~= seq![caller]);
            assert(post.requests_wf()) by {
                assert forall|r: int| 0 <= r < post.requests@.len() implies {
                    let req = #[trigger] post.requests@[r];
                    &&& post.has_channel(req.channel_id)
                    &&& (req.approval == Approval::Unset <==> post.channel(
                        req.channel_id,
                    ).pending@.contains(r as RequestId))
                } by {
                    let req = post.requests@[r];
                    assert(req == pre2.requests@[r]);
                    assert(pre2.has_channel(req.channel_id));
                    assert(post.channel(req.channel_id).pending@ == pre2.channel(
                        req.channel_id,
                    ).pending@);
                }
            }
            assert(post.pending_lists_wf()) by {
                assert forall|c2: int, j: int|
                    0 <= c2 < post.channels@.len() && 0 <= j < post.channels@[c2].pending@.len() implies {
                    let rid = #[trigger] post.channels@[c2].pending@[j];
                    &&& post.has_request(rid)
                    &&& post.request(rid).channel_id == c2 as ChannelId
                    &&& post.request(rid).approval == Approval::Unset
                    &&& !post.has_member(post.request(rid).sender, c2 as ChannelId)
                } by {
                    assert(c2 < pre2.channels@.len());
                    assert(post.channels@[c2].pending@ == pre2.channels@[c2].pending@);
                    let rid = pre2.channels@[c2].pending@[j];
                    assert(!pre2.has_member(pre2.request(rid).sender, c2 as ChannelId));
                    assert(post.members_of(c2 as ChannelId) == pre2.members_of(c2 as ChannelId));
                }
            }
            assert(post.pending_senders_unique()) by {
                assert forall|c2: int, j1: int, j2: int|
                    0 <= c2 < post.channels@.len() && 0 <= j1 < j2 < post.channels@[c2].pending@.len() implies post.request(
                    #[trigger] post.channels@[c2].pending@[j1],
                ).sender != post.request(#[trigger] post.channels@[c2].pending@[j2]).sender by {
                    assert(c2 < pre2.channels@.len());
                    assert(post.channels@[c2].pending@ == pre2.channels@[c2].pending@);
                }
            }
            assert(post.ledgers_wf()) by {
                assert forall|c2: int| 0 <= c2 < post.channels@.len() implies {
                    &&& (#[trigger] post.channels@[c2]).messages@.len() <= u32::MAX as int
                    &&& post.channels@[c2].live_messages == count_live(post.channels@[c2].messages@)
                } by {
                    if c2 < pre2.channels@.len() {
                        assert(post.channels@[c2].messages@ == pre2.channels@[c2].messages@);
                        assert(post.channels@[c2].live_messages == pre2.channels@[c2].live_messages);
                    } else {
                        assert(post.channels@[c2].messages@.len() == 0);
                        reveal_with_fuel(count_live, 1);
                    }
                }
            }
        }
        Ok(id)
    }

    /// Replaces a channel's name and image together; only its owner may.
    /// Ownership itself never changes.
    pub fn update_channel(
        &mut self,
        caller: AccountId,
        channel_id: ChannelId,
        name: String,
        image: Option<String>,
    ) -> (r: Result<(), SquidChatError>)
        requires
            old(self).wf(),
        ensures
            final(self).wf(),
            r is Ok <==> (old(self).has_channel(channel_id) && caller == old(self).owner_of(
                channel_id,
            )),
            r matches Err(e) ==> {
                &&& *final(self) == *old(self)
                &&& e == (if !old(self).has_channel(channel_id) {
                    SquidChatError::Custom(Reason::ChannelNotFound)
                } else {
                    SquidChatError::Unauthorized
                })
            },
            r is Ok ==> {
                &&& final(self).channel_count() == old(self).channel_count()
                &&& final(self).channel(channel_id).name == name
                &&& final(self).channel(channel_id).image == image
                &&& final(self).owner_of(channel_id) == old(self).owner_of(channel_id)
                &&& final(self).members_of(channel_id) == old(self).members_of(channel_id)
                &&& final(self).pending_ids(channel_id) == old(self).pending_ids(channel_id)
                &&& final(self).messages_of(channel_id) == old(self).messages_of(channel_id)
                &&& final(self).channel(channel_id).live_messages == old(self).channel(
                    channel_id,
                ).live_messages
                &&& forall|c2: int|
                    0 <= c2 < old(self).channels@.len() && c2 != channel_id as int
                        ==> final(self).channels@[c2] == old(self).channels@[c2]
                &&& final(self).member_index == old(self).member_index
                &&& final(self).requests@ == old(self).requests@
                &&& final(self).events@ == old(self).events@.push(
                    Event::ChannelUpdated((ChannelUpdated { channel_id })),
                )
            },
    {
        if channel_id >= self.channels.len() as u64 {
            return Err(SquidChatError::Custom(Reason::ChannelNotFound));
        }
        let idx = self.channel_index(channel_id);
        if caller != self.channels[idx].owner {
            return Err(SquidChatError::Unauthorized);
        }
        let ghost pre = *self;
        self.channels[idx].name = name;
        self.channels[idx].image = image;
        self.events.push(Event::ChannelUpdated(ChannelUpdated { channel_id }));
        proof {
            let post = *self;
            assert forall|a: AccountId, c: ChannelId|
                #![trigger post.has_member(a, c)]
                #![trigger post.in_member_index(a, c)]
                post.has_member(a, c) <==> post.in_member_index(a, c) by {
                assert(post.member_channels(a) == pre.member_channels(a));
                if c == channel_id {
                    assert(post.members_of(c) == pre.members_of(c));
                } else if (c as int) < pre.channels@.len() {
                    assert(post.channels@[c as int] == pre.channels@[c as int]);
                }
                assert(post.has_member(a, c) == pre.has_member(a, c));
                assert(pre.has_member(a, c) <==> pre.in_member_index(a, c));
            }
            assert(post.member_lists_wf()) by {
                assert forall|c: int|
                    0 <= c < post.channels@.len() implies (#[trigger] post.channels@[c]).members@.no_duplicates() by {
                    assert(post.channels@[c].members@ == pre.channels@[c].members@);
                }
            }
            assert(post.requests_wf()) by {
                assert forall|r: int| 0 <= r < post.requests@.len() implies {
                    let req = #[trigger] post.requests@[r];
                    &&& post.has_channel(req.channel_id)
                    &&& (req.approval == Approval::Unset <==> post.channel(
                        req.channel_id,
                    ).pending@.contains(r as RequestId))
                } by {
                    let req = post.requests@[r];
                    assert(req == pre.requests@[r]);
                    assert(post.channel(req.channel_id).pending@ == pre.channel(
                        req.channel_id,
                    ).pending@);
                }
            }
            assert(post.pending_lists_wf()) by {
                assert forall|c2: int, j: int|
                    0 <= c2 < post.channels@.len() && 0 <= j < post.channels@[c2].pending@.len() implies {
                    let rid = #[trigger] post.channels@[c2].pending@[j];
                    &&& post.has_request(rid)
                    &&& post.request(rid).channel_id == c2 as ChannelId
                    &&& post.request(rid).approval == Approval::Unset
                    &&& !post.has_member(post.request(rid).sender, c2 as ChannelId)
                } by {
                    assert(post.channels@[c2].pending@ == pre.channels@[c2].pending@);
                    let rid = pre.channels@[c2].pending@[j];
                    assert(!pre.has_member(pre.request(rid).sender, c2 as ChannelId));
                    assert(post.members_of(c2 as ChannelId) == pre.members_of(c2 as ChannelId));
                }
            }
            assert(post.pending_senders_unique()) by {
                assert forall|c2: int, j1: int, j2: int|
                    0 <= c2 < post.channels@.len() && 0 <= j1 < j2 < post.channels@[c2].pending@.len() implies post.request(
                    #[trigger] post.channels@[c2].pending@[j1],
                ).sender != post.request(#[trigger] post.channels@[c2].pending@[j2]).sender by {
                    assert(post.channels@[c2].pending@ == pre.channels@[c2].pending@);
                }
            }
            assert(post.ledgers_wf()) by {
                assert forall|c2: int| 0 <= c2 < post.channels@.len() implies {
                    &&& (#[trigger] post.channels@[c2]).messages@.len() <= u32::MAX as int
                    &&& post.channels@[c2].live_messages == count_live(post.channels@[c2].messages@)
                } by {
                    assert(post.channels@[c2].messages@ == pre.channels@[c2].messages@);
                    assert(post.channels@[c2].live_messages == pre.channels@[c2].live_messages);
                }
            }
        }
        Ok(())
    }

    /// The metadata of a channel, or `None` for an unknown identifier.
    pub fn get_channel_info(&self, channel_id: ChannelId) -> (r: Option<Channel>)
        ensures
            r == self.channel_info(channel_id),
    {
        if channel_id < self.channels.len() as u64 {
            let idx = self.channel_index(channel_id);
            let image = match &self.channels[idx].image {
                Some(s) => Some(s.clone()),
                None => None,
            };
            Some(
                Channel { owner: self.channels[idx].owner, name: self.channels[idx].name.clone(), image },
            )
        } else {
            None
        }
    }

    /// The identifier-and-metadata record of channel `c`, as the channel
    /// list returns it.
    pub open spec fn channel_record(self, c: int) -> ChannelRecord {
        ChannelRecord {
            channel_id: c as ChannelId,
            channel: Channel {
                owner: self.channels@[c].owner,
                name: self.channels@[c].name,
                image: self.channels@[c].image,
            },
        }
    }

    /// One page of all channels ever created, in ascending identifier
    /// order.
    pub fn list_channels(&self, from: usize, per_page: usize) -> (page: Pagination<ChannelRecord>)
        ensures
            page.from == from,
            page.per_page == clamped_page_size(per_page as int),
            page.total as int == self.channels@.len(),
            page.has_next_page == forward_has_next(page.total as int, from as int, per_page as int),
            page.items@.len() == forward_end(page.total as int, from as int, per_page as int)
                - forward_start(page.total as int, from as int),
            forall|i: int|
                0 <= i < page.items@.len() ==> #[trigger] page.items@[i] == self.channel_record(
                    forward_start(page.total as int, from as int) + i,
                ),
            page.items@.len() <= page.per_page,
    {
        let w = forward_window(self.channels.len(), from, per_page);
        let mut items: Vec<ChannelRecord> = Vec::new();
        let mut i = w.start;
        while i < w.end
            invariant
                w.start <= i <= w.end,
                w.end <= self.channels@.len(),
                items@.len() == i - w.start,
                forall|k: int|
                    0 <= k < items@.len() ==> #[trigger] items@[k] == self.channel_record(
                        w.start + k,
                    ),
            decreases w.end - i,
        {
            let image = match &self.channels[i].image {
                Some(s) => Some(s.clone()),
                None => None,
            };
            items.push(
                ChannelRecord {
                    channel_id: i as u64,
                    channel: Channel {
                        owner: self.channels[i].owner,
                        name: self.channels[i].name.clone(),
                        image,
                    },
                },
            );
            i += 1;
        }
        Pagination {
            items,
            from,
            per_page: w.per_page,
            has_next_page: w.has_next_page,
            total: self.channels.len(),
        }
    }
}

} // verus!

//! The membership directory: the one pair of primitives that mutate both
//! directions of the channel/member relation atomically, and the public
//! operations layered over them. Two authorization paths share the removal
//! primitive: a member may remove themself (`leave_channel`), the owner may
//! remove anyone (`kick_member`).

use vstd::prelude::*;
use vstd::seq_lib::*;
use crate::directory::{
    contains_u64, copy_u64s, find_u64, lemma_remove_at, member_added, member_removed, Directory,
};
use crate::errors::{Reason, SquidChatError};
use crate::events::{Event, MemberJoined, MemberLeft};
use crate::pagination::{
    clamped_page_size, forward_end, forward_has_next, forward_start, forward_window,
};
use crate::types::{AccountId, Approval, ChannelId, Pagination, RequestId};

verus! {

broadcast use vstd::std_specs::hash::group_hash_axioms;

impl Directory {
    /// Whether `account` is a member of channel `channel_id`; false for an
    /// unknown channel.
    pub fn is_member(&self, account: AccountId, channel_id: ChannelId) -> (r: bool)
        ensures
            r == self.has_member(account, channel_id),
    {
        if channel_id < self.channels.len() as u64 {
            contains_u64(&self.channels[channel_id as usize].members, account)
        } else {
            false
        }
    }

    /// The shared mutation primitive of the membership relation: writes the
    /// member list and the reverse index in one step and emits `MemberJoined`.
    /// Callers enforce authorization; this enforces only the uniqueness
    /// invariant.
    pub(crate) fn add_member_entry(&mut self, channel_id: ChannelId, account: AccountId)
        requires
            old(self).member_lists_wf(),
            old(self).index_lists_wf(),
            old(self).indexes_consistent(),
            old(self).has_channel(channel_id),
            !old(self).has_member(account, channel_id),
        ensures
            final(self).member_lists_wf(),
            final(self).index_lists_wf(),
            final(self).indexes_consistent(),
            member_added(*old(self), *final(self), channel_id, account),
    {
        let ghost pre = *self;
        let idx = self.channel_index(channel_id);
        self.channels[idx].members.push(account);
        let mut list: Vec<ChannelId> = match self.member_index.get(&account) {
            Some(v) => copy_u64s(v),
            None => Vec::new(),
        };
        list.push(channel_id);
        self.member_index.insert(account, list);
        self.events.push(Event::MemberJoined(MemberJoined { channel_id, account }));
        proof {
            let post = *self;
            assert(post.members_of(channel_id) =~= pre.members_of(channel_id).push(account));
            assert(post.member_channels(account) =~= pre.member_channels(account).push(channel_id));
            assert forall|a2: AccountId| a2 != account implies post.member_channels(a2)
                == pre.member_channels(a2) by {}
            assert(member_added(pre, post, channel_id, account));
            assert(!pre.member_channels(account).contains(channel_id)) by {
                assert(!pre.in_member_index(account, channel_id));
            }
            assert(post.member_lists_wf()) by {
                assert forall|c: int| 0 <= c < post.channels@.len() implies (#[trigger] post.channels@[c]).members@.no_duplicates() by {
                    if c == channel_id as int {
                        let m0 = pre.members_of(channel_id);
                        let m1 = post.channels@[c].members@;
                        assert(m1 =~= m0.push(account));
                        assert forall|p: int, q: int| 0 <= p < q < m1.len() implies m1[p] != m1[q] by {
                            if q == m1.len() - 1 {
                                assert(m1[q] == account);
                                assert(m0.contains(m0[p])) by {}
                            }
                        }
                    }
                }
            }
            assert(post.index_lists_wf()) by {
                assert forall|a: AccountId| post.member_index@.contains_key(a) implies (#[trigger] post.member_index@[a])@.no_duplicates() by {
                    if a == account {
                        let l0 = pre.member_channels(account);
                        let l1 = post.member_index@[a]@;
                        assert(l1 =~= l0.push(channel_id));
                        assert forall|p: int, q: int| 0 <= p < q < l1.len() implies l1[p] != l1[q] by {
                            if q == l1.len() - 1 {
                                assert(l0.contains(l0[p])) by {}
                            }
                        }
                    }
                }
            }
            assert(post.indexes_consistent()) by {
                assert forall|a: AccountId, c: ChannelId| #![trigger post.has_member(a, c)] #![trigger post.in_member_index(a, c)]
                    post.has_member(a, c) <==> post.in_member_index(a, c) by {
                    if a == account && c == channel_id {
                        assert(post.members_of(c).contains(account)) by {
                            assert(post.members_of(c).last() == account);
                        }
                        assert(post.member_channels(a).contains(c)) by {
                            assert(post.member_channels(a).last() == channel_id);
                        }
                    } else if a == account {
                        assert(post.member_channels(a).contains(c) <==> pre.member_channels(a).contains(c)) by {
                            let l0 = pre.member_channels(a);
                            let l1 = post.member_channels(a);
                            assert(l1 =~= l0.push(channel_id));
                            if l0.contains(c) {
                                let j = choose|j: int| 0 <= j < l0.len() && l0[j] == c;
                                assert(l1[j] == c);
                            }
                            if l1.contains(c) {
                                let j = choose|j: int| 0 <= j < l1.len() && l1[j] == c;
                                assert(j < l0.len() && l0[j] == c);
                            }
                        }
                        assert(post.has_member(a, c) == pre.has_member(a, c));
                        assert(pre.has_member(a, c) <==> pre.in_member_index(a, c));
                    } else if c == channel_id {
                        assert(post.member_channels(a) == pre.member_channels(a));
                        let m0 = pre.members_of(c);
                        let m1 = post.members_of(c);
                        assert(m1 =~= m0.push(account));
                        assert(m1.contains(a) <==> m0.contains(a)) by {
                            if m0.contains(a) {
                                let j = choose|j: int| 0 <= j < m0.len() && m0[j] == a;
                                assert(m1[j] == a);
                            }
                            if m1.contains(a) {
                                let j = choose|j: int| 0 <= j < m1.len() && m1[j] == a;
                                assert(j < m0.len() && m0[j] == a);
                            }
                        }
                        assert(pre.has_member(a, c) <==> pre.in_member_index(a, c));
                    } else {
                        assert(post.has_member(a, c) == pre.has_member(a, c));
                        assert(post.member_channels(a) == pre.member_channels(a));
                        assert(pre.has_member(a, c) <==> pre.in_member_index(a, c));
                    }
                }
            }
        }
    }

    /// The shared removal primitive: takes `account` out of both index
    /// directions in one step and emits `MemberLeft`. Callers enforce
    /// authorization.
    pub(crate) fn remove_member_entry(&mut self, channel_id: ChannelId, account: AccountId)
        requires
            old(self).member_lists_wf(),
            old(self).index_lists_wf(),
            old(self).indexes_consistent(),
            old(self).has_member(account, channel_id),
        ensures
            final(self).member_lists_wf(),
            final(self).index_lists_wf(),
            final(self).indexes_consistent(),
            member_removed(*old(self), *final(self), channel_id, account),
            !final(self).has_member(account, channel_id),
    {
        let ghost pre = *self;
        let idx = self.channel_index(channel_id);
        let pos = match find_u64(&self.channels[idx].members, account) {
            Some(p) => p,
            None => {
                proof {
                    assert(false);
                }
                0
            },
        };
        self.channels[idx].members.remove(pos);
        proof {
            lemma_remove_at(pre.members_of(channel_id), pos as int);
        }
        assert(pre.member_channels(account).contains(channel_id)) by {
            assert(pre.in_member_index(account, channel_id));
        }
        let stored: &Vec<ChannelId> = match self.member_index.get(&account) {
            Some(v) => v,
            None => {
                proof {
                    assert(false);
                }
                &self.channels[0].members
            },
        };
        let mut list: Vec<ChannelId> = copy_u64s(stored);
        let pos2 = match find_u64(&list, channel_id) {
            Some(p) => p,
            None => {
                proof {
                    assert(false);
                }
                0
            },
        };
        list.remove(pos2);
        proof {
            lemma_remove_at(pre.member_channels(account), pos2 as int);
        }
        self.member_index.insert(account, list);
        self.events.push(Event::MemberLeft(MemberLeft { channel_id, account }));
        proof {
            let post = *self;
            let m0 = pre.members_of(channel_id);
            let m1 = post.members_of(channel_id);
            let l0 = pre.member_channels(account);
            let l1 = post.member_channels(account);
            assert(m1 == m0.remove(pos as int));
            assert(m0.remove(pos as int) == m0.remove_value(account));
            assert(l1 == l0.remove(pos2 as int));
            assert(l0.remove(pos2 as int) == l0.remove_value(channel_id));
            assert forall|a2: AccountId| a2 != account implies post.member_channels(a2)
                == pre.member_channels(a2) by {}
            assert(member_removed(pre, post, channel_id, account));
            assert(post.member_lists_wf()) by {
                assert forall|c: int| 0 <= c < post.channels@.len() implies (#[trigger] post.channels@[c]).members@.no_duplicates() by {
                    if c == channel_id as int {
                        assert(post.channels@[c].members@ == m1);
                    }
                }
            }
            assert(post.index_lists_wf()) by {
                assert forall|a: AccountId| post.member_index@.contains_key(a) implies (#[trigger] post.member_index@[a])@.no_duplicates() by {
                    if a == account {
                        assert(post.member_index@[a]@ == l1);
                    }
                }
            }
            assert(post.indexes_consistent()) by {
                assert forall|a: AccountId, c: ChannelId| #![trigger post.has_member(a, c)] #![trigger post.in_member_index(a, c)]
                    post.has_member(a, c) <==> post.in_member_index(a, c) by {
                    if a == account && c == channel_id {
                        assert(!m1.contains(account));
                        assert(!l1.contains(channel_id));
                    } else if a == account {
                        assert(l1.contains(c) <==> l0.contains(c));
                        assert(post.has_member(a, c) == pre.has_member(a, c));
                        assert(pre.has_member(a, c) <==> pre.in_member_index(a, c));
                    } else if c == channel_id {
                        assert(m1.contains(a) <==> m0.contains(a));
                        assert(post.member_channels(a) == pre.member_channels(a));
                        assert(pre.has_member(a, c) <==> pre.in_member_index(a, c));
                    } else {
                        assert(post.has_member(a, c) == pre.has_member(a, c));
                        assert(post.member_channels(a) == pre.member_channels(a));
                        assert(pre.has_member(a, c) <==> pre.in_member_index(a, c));
                    }
                }
            }
            assert(!post.has_member(account, channel_id));
        }
    }

    /// A member removes themself: authorized by the caller being the
    /// subject, not by channel ownership.
    pub fn leave_channel(&mut self, caller: AccountId, channel_id: ChannelId) -> (r: Result<
        (),
        SquidChatError,
    >)
        requires
            old(self).wf(),
        ensures
            final(self).wf(),
            r is Ok <==> (old(self).has_channel(channel_id) && old(self).has_member(
                caller,
                channel_id,
            )),
            r matches Err(e) ==> {
                &&& *final(self) == *old(self)
                &&& e == (if !old(self).has_channel(channel_id) {
                    SquidChatError::Custom(Reason::ChannelNotFound)
                } else {
                    SquidChatError::Custom(Reason::NotMember)
                })
            },
            r is Ok ==> member_removed(*old(self), *final(self), channel_id, caller),
    {
        if channel_id >= self.channels.len() as u64 {
            return Err(SquidChatError::Custom(Reason::ChannelNotFound));
        }
        if !self.is_member(caller, channel_id) {
            return Err(SquidChatError::Custom(Reason::NotMember));
        }
        self.remove_member_entry(channel_id, caller);
        proof {
            lemma_wf_after_member_removed(*old(self), *self, channel_id, caller);
        }
        Ok(())
    }

    /// The channel owner removes a member.
    pub fn kick_member(&mut self, caller: AccountId, channel_id: ChannelId, account: AccountId) -> (r:
        Result<(), SquidChatError>)
        requires
            old(self).wf(),
        ensures
            final(self).wf(),
            r is Ok <==> (old(self).has_channel(channel_id) && caller == old(self).owner_of(
                channel_id,
            ) && old(self).has_member(account, channel_id)),
            r matches Err(e) ==> {
                &&& *final(self) == *old(self)
                &&& e == (if !old(self).has_channel(channel_id) {
                    SquidChatError::Custom(Reason::ChannelNotFound)
                } else if caller != old(self).owner_of(channel_id) {
                    SquidChatError::Unauthorized
                } else {
                    SquidChatError::Custom(Reason::NotMember)
                })
            },
            r is Ok ==> member_removed(*old(self), *final(self), channel_id, account),
    {
        if channel_id >= self.channels.len() as u64 {
            return Err(SquidChatError::Custom(Reason::ChannelNotFound));
        }
        let idx = self.channel_index(channel_id);
        if caller != self.channels[idx].owner {
            return Err(SquidChatError::Unauthorized);
        }
        if !self.is_member(account, channel_id) {
            return Err(SquidChatError::Custom(Reason::NotMember));
        }
        self.remove_member_entry(channel_id, account);
        proof {
            lemma_wf_after_member_removed(*old(self), *self, channel_id, account);
        }
        Ok(())
    }

    /// One page of a channel's member list, in joining order; an unknown
    /// channel yields an empty page with total 0.
    pub fn list_members(&self, channel_id: ChannelId, from: usize, per_page: usize) -> (page:
        Pagination<AccountId>)
        ensures
            page.from == from,
            page.per_page == clamped_page_size(per_page as int),
            page.total as int == (if self.has_channel(channel_id) {
                self.members_of(channel_id).len() as int
            } else {
                0
            }),
            page.has_next_page == forward_has_next(page.total as int, from as int, per_page as int),
            page.items@ == (if self.has_channel(channel_id) {
                self.members_of(channel_id).subrange(
                    forward_start(page.total as int, from as int),
                    forward_end(page.total as int, from as int, per_page as int),
                )
            } else {
                Seq::<AccountId>::empty()
            }),
            page.items@.len() <= page.per_page,
    {
        if channel_id < self.channels.len() as u64 {
            let idx = self.channel_index(channel_id);
            let members = &self.channels[idx].members;
            let w = forward_window(members.len(), from, per_page);
            let mut items: Vec<AccountId> = Vec::new();
            let mut i = w.start;
            while i < w.end
                invariant
                    w.start <= i <= w.end,
                    w.end <= members@.len(),
                    items@ == members@.subrange(w.start as int, i as int),
                decreases w.end - i,
            {
                items.push(members[i]);
                proof {
                    assert(members@.subrange(w.start as int, i + 1) =~= members@.subrange(
                        w.start as int,
                        i as int,
                    ).push(members@[i as int]));
                }
                i += 1;
            }
            Pagination {
                items,
                from,
                per_page: w.per_page,
                has_next_page: w.has_next_page,
                total: members.len(),
            }
        } else {
            let w = forward_window(0, from, per_page);
            Pagination {
                items: Vec::new(),
                from,
                per_page: w.per_page,
                has_next_page: w.has_next_page,
                total: 0,
            }
        }
    }

    /// The whole member list of a channel, in joining order; empty for an
    /// unknown channel.
    pub fn get_channel_members(&self, channel_id: ChannelId) -> (r: Vec<AccountId>)
        ensures
            r@ == (if self.has_channel(channel_id) {
                self.members_of(channel_id)
            } else {
                Seq::<AccountId>::empty()
            }),
    {
        if channel_id < self.channels.len() as u64 {
            let idx = self.channel_index(channel_id);
            copy_u64s(&self.channels[idx].members)
        } else {
            Vec::new()
        }
    }

    /// Every channel the account is a member of, in joining order.
    pub fn get_member_channels(&self, account: AccountId) -> (r: Vec<ChannelId>)
        ensures
            r@ == self.member_channels(account),
    {
        match self.member_index.get(&account) {
            Some(v) => copy_u64s(v),
            None => Vec::new(),
        }
    }
}

/// `remove_value` never adds containment: whatever the shrunk sequence
/// holds, the original held.
pub(crate) proof fn lemma_remove_value_subset(s: Seq<u64>, v: u64)
    ensures
        forall|y: u64| #[trigger] s.remove_value(v).contains(y) ==> s.contains(y),
{
    let t = s.remove_value(v);
    s.index_of_first_ensures(v);
    assert forall|y: u64| #[trigger] t.contains(y) implies s.contains(y) by {
        match s.index_of_first(v) {
            Some(i) => {
                s.remove_ensures(i);
                let j = choose|j: int| 0 <= j < t.len() && t[j] == y;
                if j < i {
                    assert(s[j] == y);
                } else {
                    assert(s[j + 1] == y);
                }
            },
            None => {},
        }
    }
}

/// Restores the whole invariant after a membership removal: requests,
/// pending lists and ledgers are untouched by the delta, and membership
/// only shrinks.
pub(crate) proof fn lemma_wf_after_member_removed(
    pre: Directory,
    post: Directory,
    c: ChannelId,
    a: AccountId,
)
    requires
        pre.wf(),
        pre.has_channel(c),
        member_removed(pre, post, c, a),
        post.member_lists_wf(),
        post.index_lists_wf(),
        post.indexes_consistent(),
    ensures
        post.wf(),
{
    lemma_remove_value_subset(pre.members_of(c), a);
    assert forall|c2: int, a2: AccountId|
        0 <= c2 < post.channels@.len() && #[trigger] post.has_member(
            a2,
            c2 as ChannelId,
        ) implies pre.has_member(a2, c2 as ChannelId) by {
        if c2 != c as int {
            assert(post.channels@[c2] == pre.channels@[c2]);
        }
    }
    assert(post.requests_wf()) by {
        assert forall|r: int| 0 <= r < post.requests@.len() implies {
            let req = #[trigger] post.requests@[r];
            &&& post.has_channel(req.channel_id)
            &&& (req.approval == Approval::Unset <==> post.channel(req.channel_id).pending@.contains(
                r as RequestId,
            ))
        } by {
            let req = post.requests@[r];
            assert(req == pre.requests@[r]);
            assert(post.channel(req.channel_id).pending@ == pre.channel(req.channel_id).pending@);
        }
    }
    assert(post.pending_lists_wf()) by {
        assert forall|c2: int, j: int|
            0 <= c2 < post.channels@.len() && 0 <= j < post.channels@[c2].pending@.len() implies {
            let rid = #[trigger] post.channels@[c2].pending@[j];
            &&& post.has_request(rid)
            &&& post.request(rid).channel_id == c2 as ChannelId
            &&& post.request(rid).approval == Approval::Unset
            &&& !post.has_member(post.request(rid).sender, c2 as ChannelId)
        } by {
            assert(post.channels@[c2].pending@ == pre.channels@[c2].pending@);
            let rid = pre.channels@[c2].pending@[j];
            assert(!pre.has_member(pre.request(rid).sender, c2 as ChannelId));
        }
    }
    assert(post.pending_senders_unique()) by {
        assert forall|c2: int, j1: int, j2: int|
            0 <= c2 < post.channels@.len() && 0 <= j1 < j2 < post.channels@[c2].pending@.len() implies post.request(
            #[trigger] post.channels@[c2].pending@[j1],
        ).sender != post.request(#[trigger] post.channels@[c2].pending@[j2]).sender by {
            assert(post.channels@[c2].pending@ == pre.channels@[c2].pending@);
        }
    }
    assert(post.ledgers_wf()) by {
        assert forall|c2: int| 0 <= c2 < post.channels@.len() implies {
            &&& (#[trigger] post.channels@[c2]).messages@.len() <= u32::MAX as int
            &&& post.channels@[c2].live_messages == crate::directory::count_live(
                post.channels@[c2].messages@,
            )
        } by {
            assert(post.channels@[c2].messages@ == pre.channels@[c2].messages@);
            assert(post.channels@[c2].live_messages == pre.channels@[c2].live_messages);
        }
    }
}

} // verus!

//! The message ledger: append by members, tombstone by the author or the
//! channel owner, and the reverse-chronological (most recent first) read
//! query that skips tombstones inside its window without erroring.

use vstd::prelude::*;
use vstd::seq_lib::*;
use crate::directory::{count_live, lemma_wf_preserved, Directory};
use crate::errors::{Reason, SquidChatError};
use crate::events::{Event, MessageDeleted, MessageSent};
use crate::pagination::{
    clamped_page_size, reverse_has_next, reverse_lower, reverse_upper, reverse_window,
};
use crate::types::{
    AccountId, ChannelId, Message, MessageId, MessageRecord, Pagination, Timestamp,
};

verus! {

broadcast use vstd::std_specs::hash::group_hash_axioms;

/// Appending an entry raises the live count by one exactly when the entry
/// is live.
proof fn lemma_count_live_push(s: Seq<Option<Message>>, m: Option<Message>)
    ensures
        count_live(s.push(m)) == count_live(s) + (if m is Some {
            1nat
        } else {
            0nat
        }),
{
    assert(s.push(m).drop_last() =~= s);
    assert(s.push(m).last() == m);
}

/// A ledger never counts more live entries than it has entries.
proof fn lemma_count_live_le_len(s: Seq<Option<Message>>)
    ensures
        count_live(s) <= s.len(),
    decreases s.len(),
{
    if s.len() > 0 {
        lemma_count_live_le_len(s.drop_last());
    }
}

/// Tombstoning a live entry lowers the live count by exactly one.
proof fn lemma_count_live_tombstone(s: Seq<Option<Message>>, i: int)
    requires
        0 <= i < s.len(),
        s[i] is Some,
    ensures
        count_live(s) == count_live(s.update(i, None)) + 1,
    decreases s.len(),
{
    let t = s.update(i, None);
    if i == s.len() - 1 {
        assert(t.drop_last() =~= s.drop_last());
        assert(t.last() is None);
        assert(s.last() is Some);
    } else {
        assert(t.drop_last() =~= s.drop_last().update(i, None));
        assert(t.last() == s.last());
        lemma_count_live_tombstone(s.drop_last(), i);
    }
}

/// A fresh copy of a stored message.
fn copy_message(m: &Message) -> (r: Message)
    ensures
        r == *m,
{
    Message { sender: m.sender, content: m.content.clone(), send_at: m.send_at }
}

/// The records of the ledger window `[lo, hi)`, most recent first, with
/// tombstoned entries skipped.
pub open spec fn rev_window_records(msgs: Seq<Option<Message>>, lo: int, hi: int) -> Seq<
    MessageRecord,
>
    decreases hi - lo,
{
    if hi <= lo {
        Seq::empty()
    } else {
        match msgs[hi - 1] {
            Some(m) => seq![MessageRecord { message_id: (hi - 1) as MessageId, message: m }]
                + rev_window_records(msgs, lo, hi - 1),
            None => rev_window_records(msgs, lo, hi - 1),
        }
    }
}

/// Peeling the oldest entry off a window appends its record (if live) after
/// the records of the rest.
proof fn lemma_rev_window_peel_lo(msgs: Seq<Option<Message>>, lo: int, hi: int)
    requires
        lo < hi,
    ensures
        rev_window_records(msgs, lo, hi) == rev_window_records(msgs, lo + 1, hi) + (match msgs[lo] {
            Some(m) => seq![MessageRecord { message_id: lo as MessageId, message: m }],
            None => Seq::empty(),
        }),
    decreases hi - lo,
{
    let tail = (match msgs[lo] {
        Some(m) => seq![MessageRecord { message_id: lo as MessageId, message: m }],
        None => Seq::<MessageRecord>::empty(),
    });
    if hi == lo + 1 {
        assert(rev_window_records(msgs, lo + 1, hi) =~= Seq::<MessageRecord>::empty());
        assert(rev_window_records(msgs, lo, hi) =~= Seq::<MessageRecord>::empty() + tail);
    } else {
        lemma_rev_window_peel_lo(msgs, lo, hi - 1);
        let head = (match msgs[hi - 1] {
            Some(m) => seq![MessageRecord { message_id: (hi - 1) as MessageId, message: m }],
            None => Seq::<MessageRecord>::empty(),
        });
        assert(rev_window_records(msgs, lo, hi) == head + rev_window_records(msgs, lo, hi - 1));
        assert(rev_window_records(msgs, lo + 1, hi) == head + rev_window_records(
            msgs,
            lo + 1,
            hi - 1,
        ));
        assert(head + (rev_window_records(msgs, lo + 1, hi - 1) + tail) =~= (head
            + rev_window_records(msgs, lo + 1, hi - 1)) + tail);
    }
}

/// Every live entry inside a window appears among the window's records,
/// under its own identifier.
proof fn lemma_rev_window_contains(msgs: Seq<Option<Message>>, lo: int, hi: int, i: int)
    requires
        lo <= i < hi,
        msgs[i] is Some,
    ensures
        rev_window_records(msgs, lo, hi).contains(
            MessageRecord { message_id: i as MessageId, message: msgs[i].unwrap() },
        ),
    decreases hi - lo,
{
    let rec = MessageRecord { message_id: i as MessageId, message: msgs[i].unwrap() };
    if i == hi - 1 {
        assert(rev_window_records(msgs, lo, hi)[0] == rec);
    } else {
        lemma_rev_window_contains(msgs, lo, hi - 1, i);
        let rest = rev_window_records(msgs, lo, hi - 1);
        let w = choose|w: int| 0 <= w < rest.len() && rest[w] == rec;
        match msgs[hi - 1] {
            Some(m) => {
                assert(rev_window_records(msgs, lo, hi)[1 + w] == rec);
            },
            None => {
                assert(rev_window_records(msgs, lo, hi)[w] == rec);
            },
        }
    }
}

/// The ledger round trip: a live message whose identifier falls inside the
/// queried window is returned by the listing, under that identifier. With
/// the listing's own contract this says a just-sent message is on the
/// first page of a fresh read, and stays listed until it is removed.
pub proof fn lemma_listed_message_round_trip(
    d: Directory,
    c: ChannelId,
    m: MessageId,
    from: usize,
    per_page: usize,
)
    requires
        d.has_channel(c),
        d.message_at(c, m) is Some,
        reverse_lower(d.message_count(c) as int, from as int, per_page as int) <= m as int,
        (m as int) < reverse_upper(d.message_count(c) as int, from as int),
    ensures
        rev_window_records(
            d.messages_of(c),
            reverse_lower(d.message_count(c) as int, from as int, per_page as int),
            reverse_upper(d.message_count(c) as int, from as int),
        ).contains(
            MessageRecord { message_id: m, message: d.message_at(c, m).unwrap() },
        ),
{
    lemma_rev_window_contains(
        d.messages_of(c),
        reverse_lower(d.message_count(c) as int, from as int, per_page as int),
        reverse_upper(d.message_count(c) as int, from as int),
        m as int,
    );
}

impl Directory {
    /// Appends a message to a channel's ledger. The caller must be a
    /// member; the new identifier is the channel's next counter value, and
    /// the only further failure is counter exhaustion.
    pub fn send_message(
        &mut self,
        caller: AccountId,
        now: Timestamp,
        channel_id: ChannelId,
        content: String,
    ) -> (r: Result<MessageId, SquidChatError>)
        requires
            old(self).wf(),
        ensures
            final(self).wf(),
            r is Ok <==> (old(self).has_channel(channel_id) && old(self).has_member(
                caller,
                channel_id,
            ) && old(self).message_count(channel_id) < u32::MAX),
            r matches Err(e) ==> {
                &&& *final(self) == *old(self)
                &&& e == (if !old(self).has_channel(channel_id) {
                    SquidChatError::Custom(Reason::ChannelNotFound)
                } else if !old(self).has_member(caller, channel_id) {
                    SquidChatError::Custom(Reason::NotMember)
                } else {
                    SquidChatError::Custom(Reason::AllocationExhausted)
                })
            },
            r matches Ok(id) ==> {
                &&& id as int == old(self).message_count(channel_id)
                &&& final(self).message_count(channel_id) == old(self).message_count(channel_id)
                    + 1
                &&& final(self).message_at(channel_id, id) == Some(
                    (Message { sender: caller, content, send_at: now }),
                )
                &&& final(self).messages_of(channel_id) == old(self).messages_of(channel_id).push(
                    Some((Message { sender: caller, content, send_at: now })),
                )
                &&& final(self).channel(channel_id).live_messages == old(self).channel(
                    channel_id,
                ).live_messages + 1
                &&& final(self).members_of(channel_id) == old(self).members_of(channel_id)
                &&& final(self).pending_ids(channel_id) == old(self).pending_ids(channel_id)
                &&& final(self).owner_of(channel_id) == old(self).owner_of(channel_id)
                &&& final(self).channel(channel_id).name == old(self).channel(channel_id).name
                &&& final(self).channel(channel_id).image == old(self).channel(channel_id).image
                &&& final(self).channel_count() == old(self).channel_count()
                &&& forall|c2: int|
                    0 <= c2 < old(self).channels@.len() && c2 != channel_id as int
                        ==> final(self).channels@[c2] == old(self).channels@[c2]
                &&& final(self).member_index == old(self).member_index
                &&& final(self).requests@ == old(self).requests@
                &&& final(self).events@ == old(self).events@.push(
                    Event::MessageSent((MessageSent { channel_id, message_id: id })),
                )
            },
    {
        if channel_id >= self.channels.len() as u64 {
            return Err(SquidChatError::Custom(Reason::ChannelNotFound));
        }
        if !self.is_member(caller, channel_id) {
            return Err(SquidChatError::Custom(Reason::NotMember));
        }
        let idx = self.channel_index(channel_id);
        let nonce = self.channels[idx].messages.len();
        if nonce >= u32::MAX as usize {
            return Err(SquidChatError::Custom(Reason::AllocationExhausted));
        }
        let ghost pre = *self;
        proof {
            lemma_count_live_le_len(pre.messages_of(channel_id));
        }
        let message_id = nonce as u32;
        let message = Message { sender: caller, content, send_at: now };
        self.channels[idx].messages.push(Some(message));
        self.channels[idx].live_messages = self.channels[idx].live_messages + 1;
        self.events.push(Event::MessageSent(MessageSent { channel_id, message_id }));
        proof {
            let post = *self;
            lemma_count_live_push(
                pre.messages_of(channel_id),
                post.messages_of(channel_id).last(),
            );
            assert(pre.channel(channel_id).live_messages == count_live(
                pre.messages_of(channel_id),
            ));
            assert(post.messages_of(channel_id) =~= pre.messages_of(channel_id).push(
                post.messages_of(channel_id).last(),
            ));
            lemma_wf_preserved(pre, post);
        }
        Ok(message_id)
    }

    /// Removes a message: the caller must be a member and either the
    /// message's author or the channel owner. The identifier is retired for
    /// good; a missing identifier is the caller's error, surfaced rather
    /// than masked.
    pub fn remove_message(
        &mut self,
        caller: AccountId,
        channel_id: ChannelId,
        message_id: MessageId,
    ) -> (r: Result<(), SquidChatError>)
        requires
            old(self).wf(),
        ensures
            final(self).wf(),
            r is Ok <==> {
                &&& old(self).has_channel(channel_id)
                &&& old(self).has_member(caller, channel_id)
                &&& old(self).message_at(channel_id, message_id) is Some
                &&& (caller == old(self).message_at(channel_id, message_id).unwrap().sender
                    || caller == old(self).owner_of(channel_id))
            },
            r matches Err(e) ==> {
                &&& *final(self) == *old(self)
                &&& e == (if !old(self).has_channel(channel_id) {
                    SquidChatError::Custom(Reason::ChannelNotFound)
                } else if !old(self).has_member(caller, channel_id) {
                    SquidChatError::Custom(Reason::NotMember)
                } else if old(self).message_at(channel_id, message_id) is None {
                    SquidChatError::Custom(Reason::MessageNotFound)
                } else {
                    SquidChatError::Unauthorized
                })
            },
            r is Ok ==> {
                &&& final(self).message_at(channel_id, message_id) is None
                &&& final(self).messages_of(channel_id) == old(self).messages_of(
                    channel_id,
                ).update(message_id as int, None)
                &&& final(self).message_count(channel_id) == old(self).message_count(channel_id)
                &&& final(self).channel(channel_id).live_messages + 1 == old(self).channel(
                    channel_id,
                ).live_messages
                &&& final(self).members_of(channel_id) == old(self).members_of(channel_id)
                &&& final(self).pending_ids(channel_id) == old(self).pending_ids(channel_id)
                &&& final(self).owner_of(channel_id) == old(self).owner_of(channel_id)
                &&& final(self).channel(channel_id).name == old(self).channel(channel_id).name
                &&& final(self).channel(channel_id).image == old(self).channel(channel_id).image
                &&& final(self).channel_count() == old(self).channel_count()
                &&& forall|c2: int|
                    0 <= c2 < old(self).channels@.len() && c2 != channel_id as int
                        ==> final(self).channels@[c2] == old(self).channels@[c2]
                &&& final(self).member_index == old(self).member_index
                &&& final(self).requests@ == old(self).requests@
                &&& final(self).events@ == old(self).events@.push(
                    Event::MessageDeleted((MessageDeleted { channel_id, message_id })),
                )
            },
    {
        if channel_id >= self.channels.len() as u64 {
            return Err(SquidChatError::Custom(Reason::ChannelNotFound));
        }
        if !self.is_member(caller, channel_id) {
            return Err(SquidChatError::Custom(Reason::NotMember));
        }
        let idx = self.channel_index(channel_id);
        let m = message_id as usize;
        if m >= self.channels[idx].messages.len() {
            return Err(SquidChatError::Custom(Reason::MessageNotFound));
        }
        let sender = match &self.channels[idx].messages[m] {
            Some(msg) => msg.sender,
            None => {
                return Err(SquidChatError::Custom(Reason::MessageNotFound));
            },
        };
        if caller != sender && caller != self.channels[idx].owner {
            return Err(SquidChatError::Unauthorized);
        }
        let ghost pre = *self;
        self.channels[idx].messages[m] = None;
        proof {
            lemma_count_live_tombstone(pre.messages_of(channel_id), m as int);
            assert(pre.channel(channel_id).live_messages == count_live(
                pre.messages_of(channel_id),
            ));
        }
        self.channels[idx].live_messages = self.channels[idx].live_messages - 1;
        self.events.push(Event::MessageDeleted(MessageDeleted { channel_id, message_id }));
        proof {
            let post = *self;
            assert(post.messages_of(channel_id) == pre.messages_of(channel_id).update(
                message_id as int,
                None,
            ));
            lemma_wf_preserved(pre, post);
        }
        Ok(())
    }

    /// One page of a channel's ledger, most recent first. `from` counts
    /// back from the newest entry; the window is cut over identifier space,
    /// tombstoned entries inside it are skipped, and `total` is the
    /// authoritative live count at the moment of the read. An unknown
    /// channel yields an empty page with total 0.
    pub fn list_messages(&self, channel_id: ChannelId, from: usize, per_page: usize) -> (page:
        Pagination<MessageRecord>)
        requires
            self.wf(),
        ensures
            page.from == from,
            page.per_page == clamped_page_size(per_page as int),
            page.total as int == (if self.has_channel(channel_id) {
                self.channel(channel_id).live_messages as int
            } else {
                0
            }),
            page.has_next_page == reverse_has_next(
                self.message_count(channel_id) as int,
                from as int,
                per_page as int,
            ),
            page.items@ == (if self.has_channel(channel_id) {
                rev_window_records(
                    self.messages_of(channel_id),
                    reverse_lower(
                        self.message_count(channel_id) as int,
                        from as int,
                        per_page as int,
                    ),
                    reverse_upper(self.message_count(channel_id) as int, from as int),
                )
            } else {
                Seq::<MessageRecord>::empty()
            }),
            page.items@.len() <= page.per_page,
    {
        if channel_id < self.channels.len() as u64 {
            let idx = self.channel_index(channel_id);
            let msgs = &self.channels[idx].messages;
            let w = reverse_window(msgs.len(), from, per_page);
            let mut items: Vec<MessageRecord> = Vec::new();
            let mut i = w.end;
            while i > w.start
                invariant
                    w.start <= i <= w.end,
                    w.end <= msgs@.len(),
                    msgs@.len() <= u32::MAX as int,
                    items@ == rev_window_records(msgs@, i as int, w.end as int),
                    items@.len() <= w.end - i,
                decreases i - w.start,
            {
                i = i - 1;
                match &msgs[i] {
                    Some(msg) => {
                        items.push(
                            MessageRecord { message_id: i as u32, message: copy_message(msg) },
                        );
                    },
                    None => {},
                }
                proof {
                    lemma_rev_window_peel_lo(msgs@, i as int, w.end as int);
                    assert(items@ =~= rev_window_records(msgs@, i as int, w.end as int));
                }
            }
            Pagination {
                items,
                from,
                per_page: w.per_page,
                has_next_page: w.has_next_page,
                total: self.channels[idx].live_messages,
            }
        } else {
            let w = reverse_window(0, from, per_page);
            Pagination {
                items: Vec::new(),
                from,
                per_page: w.per_page,
                has_next_page: w.has_next_page,
                total: 0,
            }
        }
    }

    /// The channel's message counter: how many identifiers it has issued,
    /// tombstoned ones included; 0 for an unknown channel.
    pub fn message_nonce(&self, channel_id: ChannelId) -> (r: MessageId)
        requires
            self.wf(),
        ensures
            r as int == self.message_count(channel_id) as int,
    {
        if channel_id < self.channels.len() as u64 {
            let idx = self.channel_index(channel_id);
            self.channels[idx].messages.len() as u32
        } else {
            0
        }
    }
}

} // verus!

//! The join-request workflow: a non-member asks to join, the owner settles
//! requests in a best-effort batch. At most one pending request exists per
//! (sender, channel) pair; a settled request keeps its record but leaves
//! the pending list for good, and a fresh request always gets a fresh
//! identifier.
//!
//! The batch is modelled by a left fold over the decision list against the
//! set of accounts with a pending request: [`remaining_after`],
//! [`joined_after`], [`rejected_after`] and [`not_found_after`] give the
//! exact outcome of any decision sequence, duplicates included (the first
//! decision for an account settles it; later ones count as not found).

use vstd::prelude::*;
use vstd::seq_lib::*;
use crate::directory::Directory;
use crate::errors::{Reason, SquidChatError};
use crate::events::{ApprovalSubmitted, Event, MemberJoined, RequestSent};
use crate::pagination::{clamped_page_size, forward_has_next, forward_start, forward_window};
use crate::types::{
    AccountId, Approval, ApprovalSummary, ChannelId, Pagination, Request, RequestId,
    RequestRecord, Timestamp,
};

verus! {

broadcast use vstd::std_specs::hash::group_hash_axioms;

/// One decision of a batch: the account it concerns and whether the owner
/// approves it.
pub type Decision = (AccountId, bool);

/// The accounts still pending after the decisions `ds` are applied, in
/// order, to a channel whose pending senders were `s`: each decision
/// removes its account if that account was still pending.
pub open spec fn remaining_after(s: Set<AccountId>, ds: Seq<Decision>) -> Set<AccountId>
    decreases ds.len(),
{
    if ds.len() == 0 {
        s
    } else {
        let prev = remaining_after(s, ds.drop_last());
        if prev.contains(ds.last().0) {
            prev.remove(ds.last().0)
        } else {
            prev
        }
    }
}

/// The accounts approved by `ds`, in decision order: those whose first
/// effective decision was an approval.
pub open spec fn joined_after(s: Set<AccountId>, ds: Seq<Decision>) -> Seq<AccountId>
    decreases ds.len(),
{
    if ds.len() == 0 {
        Seq::empty()
    } else {
        let prev = joined_after(s, ds.drop_last());
        if remaining_after(s, ds.drop_last()).contains(ds.last().0) && ds.last().1 {
            prev.push(ds.last().0)
        } else {
            prev
        }
    }
}

/// The accounts rejected by `ds`: those whose first effective decision was
/// a rejection.
pub open spec fn rejected_after(s: Set<AccountId>, ds: Seq<Decision>) -> Set<AccountId>
    decreases ds.len(),
{
    if ds.len() == 0 {
        Set::empty()
    } else {
        let prev = rejected_after(s, ds.drop_last());
        if remaining_after(s, ds.drop_last()).contains(ds.last().0) && !ds.last().1 {
            prev.insert(ds.last().0)
        } else {
            prev
        }
    }
}

/// How many decisions of `ds` found no pending request to settle.
pub open spec fn not_found_after(s: Set<AccountId>, ds: Seq<Decision>) -> nat
    decreases ds.len(),
{
    if ds.len() == 0 {
        0
    } else {
        not_found_after(s, ds.drop_last()) + (if remaining_after(s, ds.drop_last()).contains(
            ds.last().0,
        ) {
            0nat
        } else {
            1nat
        })
    }
}

/// The three outcome classes of a batch never overlap with what is still
/// remaining, the remaining accounts all come from `s`, and the rejected
/// set stays finite with the approved list duplicate-free.
pub proof fn lemma_batch_model_disjoint(s: Set<AccountId>, ds: Seq<Decision>)
    ensures
        forall|a: AccountId| #[trigger] remaining_after(s, ds).contains(a) ==> s.contains(a),
        forall|a: AccountId|
            #[trigger] remaining_after(s, ds).contains(a) ==> !rejected_after(s, ds).contains(a)
                && !joined_after(s, ds).contains(a),
        rejected_after(s, ds).finite(),
        joined_after(s, ds).no_duplicates(),
        forall|a: AccountId| #[trigger] rejected_after(s, ds).contains(a) ==> s.contains(a),
        forall|a: AccountId| #[trigger] joined_after(s, ds).contains(a) ==> s.contains(a),
    decreases ds.len(),
{
    if ds.len() > 0 {
        lemma_batch_model_disjoint(s, ds.drop_last());
        let a0 = ds.last().0;
        let prev_rem = remaining_after(s, ds.drop_last());
        let prev_jo = joined_after(s, ds.drop_last());
        if prev_rem.contains(a0) && ds.last().1 {
            assert forall|k: int| 0 <= k < prev_jo.len() implies prev_jo[k] != a0 by {
                assert(prev_jo.contains(prev_jo[k]));
            }
            assert(joined_after(s, ds).drop_last() =~= prev_jo);
        }
        assert forall|a: AccountId| #[trigger] joined_after(s, ds).contains(a) implies s.contains(
            a,
        ) by {
            let j = choose|j: int|
                0 <= j < joined_after(s, ds).len() && joined_after(s, ds)[j] == a;
            if j < prev_jo.len() {
                assert(prev_jo.contains(a));
            }
        }
        assert forall|a: AccountId| #[trigger] remaining_after(s, ds).contains(a) implies !joined_after(
            s,
            ds,
        ).contains(a) by {
            if joined_after(s, ds).contains(a) {
                let j = choose|j: int|
                    0 <= j < joined_after(s, ds).len() && joined_after(s, ds)[j] == a;
                if j < prev_jo.len() {
                    assert(prev_jo.contains(a));
                }
            }
        }
    }
}

/// Settling one listed entry: where `q` refuses exactly `v` among what `p`
/// accepts, filtering by `q` is filtering by `p` and then removing the one
/// occurrence of `v`.
proof fn lemma_filter_settle(s: Seq<u64>, p: spec_fn(u64) -> bool, q: spec_fn(u64) -> bool, v: u64)
    requires
        s.no_duplicates(),
        forall|x: u64| s.contains(x) ==> #[trigger] q(x) == (p(x) && x != v),
    ensures
        s.filter(q) == s.filter(p).remove_value(v),
    decreases s.len(),
{
    if s.len() == 0 {
        reveal(Seq::filter);
        s.filter(p).index_of_first_ensures(v);
        assert(s.filter(q) =~= s.filter(p).remove_value(v));
    } else {
        let s0 = s.drop_last();
        let x = s.last();
        assert(s =~= s0.push(x));
        assert(s0.no_duplicates()) by {
            assert forall|i1: int, i2: int| 0 <= i1 < i2 < s0.len() implies s0[i1] != s0[i2] by {
                assert(s[i1] == s0[i1] && s[i2] == s0[i2]);
            }
        }
        assert forall|y: u64| #[trigger] s0.contains(y) implies s.contains(y) by {
            let i = choose|i: int| 0 <= i < s0.len() && s0[i] == y;
            assert(s[i] == y);
        }
        lemma_filter_settle(s0, p, q, v);
        s0.lemma_filter_push(x, p);
        s0.lemma_filter_push(x, q);
        assert(s.filter(p) == s0.push(x).filter(p));
        assert(s.filter(q) == s0.push(x).filter(q));
        let fp0 = s0.filter(p);
        let fq0 = s0.filter(q);
        assert(s.contains(x)) by {
            assert(s[s.len() - 1] == x);
        }
        assert forall|y: u64| #[trigger] fp0.contains(y) implies s0.contains(y) by {
            s0.lemma_filter_contains_rev(p, y);
        }
        if x == v {
            assert(!s0.contains(v)) by {
                if s0.contains(v) {
                    let i = choose|i: int| 0 <= i < s0.len() && s0[i] == v;
                    assert(s[i] == v && s[s.len() - 1] == v);
                }
            }
            assert(!fp0.contains(v));
            fp0.index_of_first_ensures(v);
            assert(fq0 == fp0);
            assert(!q(x));
            assert(s.filter(q) == fq0);
            if p(x) {
                let fp = fp0.push(v);
                assert(s.filter(p) == fp);
                fp.index_of_first_ensures(v);
                assert(fp.contains(v)) by {
                    assert(fp[fp.len() - 1] == v);
                }
                let i = fp.index_of_first(v).unwrap();
                assert(i == fp0.len() as int) by {
                    if i < fp0.len() {
                        assert(fp0[i] == v);
                        assert(fp0.contains(v));
                    }
                }
                assert(fp.remove(i) =~= fp0);
            } else {
                assert(s.filter(p) == fp0);
            }
        } else {
            assert(q(x) == (p(x) && true));
            if fp0.contains(v) {
                fp0.index_of_first_ensures(v);
                let i = fp0.index_of_first(v).unwrap();
                if p(x) {
                    let fp = fp0.push(x);
                    assert(s.filter(p) == fp);
                    assert(fp.contains(v)) by {
                        assert(fp[i] == v);
                    }
                    fp.index_of_first_ensures(v);
                    let i2 = fp.index_of_first(v).unwrap();
                    assert(i2 == i) by {
                        if i2 < i {
                            assert(fp[i2] == v);
                            assert(fp0[i2] == v);
                        } else if i2 > i {
                            assert(fp[i] == v);
                        }
                    }
                    assert(fp.remove(i) =~= fp0.remove(i).push(x));
                    assert(s.filter(q) == fq0.push(x));
                    assert(fq0 == fp0.remove(i));
                } else {
                    assert(s.filter(p) == fp0 && s.filter(q) == fq0);
                }
            } else {
                fp0.index_of_first_ensures(v);
                assert(fp0.remove_value(v) == fp0);
                if p(x) {
                    let fp = fp0.push(x);
                    assert(s.filter(p) == fp);
                    assert(!fp.contains(v)) by {
                        if fp.contains(v) {
                            let i = choose|i: int| 0 <= i < fp.len() && fp[i] == v;
                            if i < fp0.len() {
                                assert(fp0[i] == v);
                            } else {
                                assert(fp[i] == x);
                            }
                        }
                    }
                    fp.index_of_first_ensures(v);
                    assert(s.filter(q) == fq0.push(x));
                } else {
                    assert(s.filter(p) == fp0 && s.filter(q) == fq0);
                }
            }
        }
    }
}

/// Filtering by a predicate every element satisfies changes nothing.
proof fn lemma_filter_all_identity(s: Seq<u64>, p: spec_fn(u64) -> bool)
    requires
        forall|j: int| 0 <= j < s.len() ==> p(#[trigger] s[j]),
    ensures
        s.filter(p) == s,
    decreases s.len(),
{
    if s.len() == 0 {
        reveal(Seq::filter);
        assert(s.filter(p) =~= s);
    } else {
        let s0 = s.drop_last();
        let x = s.last();
        assert(s =~= s0.push(x));
        assert forall|j: int| 0 <= j < s0.len() implies p(#[trigger] s0[j]) by {
            assert(s0[j] == s[j]);
        }
        lemma_filter_all_identity(s0, p);
        s0.lemma_filter_push(x, p);
        assert(s.filter(p) == s0.push(x).filter(p));
        assert(p(x)) by {
            assert(x == s[s.len() - 1]);
        }
        assert(s0.filter(p).push(x) == s);
    }
}

/// The request store entry `i` once the batch `ds` has settled what it
/// could: the unique pending request of an approved account is recorded
/// approved, of a rejected account rejected, and every other entry is
/// untouched.
pub open spec fn settled_request(
    pre: Directory,
    c: ChannelId,
    s0: Set<AccountId>,
    ds: Seq<Decision>,
    i: int,
) -> Request {
    let req = pre.requests@[i];
    if pre.pending_ids(c).contains(i as RequestId) && joined_after(s0, ds).contains(req.sender) {
        Request {
            sender: req.sender,
            channel_id: req.channel_id,
            approval: Approval::Approved,
            requested_at: req.requested_at,
        }
    } else if pre.pending_ids(c).contains(i as RequestId) && rejected_after(s0, ds).contains(
        req.sender,
    ) {
        Request {
            sender: req.sender,
            channel_id: req.channel_id,
            approval: Approval::Rejected,
            requested_at: req.requested_at,
        }
    } else {
        req
    }
}

/// The three membership conjuncts of the invariant depend only on the
/// member lists and the reverse index, so they survive any change that
/// leaves both alone.
proof fn lemma_membership_conjuncts_carry(a: Directory, b: Directory)
    requires
        a.member_lists_wf(),
        a.index_lists_wf(),
        a.indexes_consistent(),
        b.channels@.len() == a.channels@.len(),
        forall|c: int|
            0 <= c < a.channels@.len() ==> (#[trigger] b.channels@[c]).members@
                == a.channels@[c].members@,
        b.member_index@ == a.member_index@,
    ensures
        b.member_lists_wf(),
        b.index_lists_wf(),
        b.indexes_consistent(),
{
    assert(b.member_lists_wf()) by {
        assert forall|c: int|
            0 <= c < b.channels@.len() implies (#[trigger] b.channels@[c]).members@.no_duplicates() by {
            assert(b.channels@[c].members@ == a.channels@[c].members@);
        }
    }
    assert forall|x: AccountId, c: ChannelId|
        #![trigger b.has_member(x, c)]
        #![trigger b.in_member_index(x, c)]
        b.has_member(x, c) <==> b.in_member_index(x, c) by {
        assert(b.member_channels(x) == a.member_channels(x));
        if (c as int) < a.channels@.len() {
            assert(b.members_of(c) == a.members_of(c));
        }
        assert(b.has_member(x, c) == a.has_member(x, c));
        assert(a.has_member(x, c) <==> a.in_member_index(x, c));
    }
}

/// One decision of the batch, end to end: from the state `st0` the loop
/// reached after `dsk`, through the settle step `st1` (the request recorded
/// and delisted), to `st2` after the membership primitive ran for an
/// approval. Re-establishes the whole invariant and every loop fact for
/// `dsk.push(d)`.
#[verifier::rlimit(100)]
proof fn lemma_after_decision(
    pre: Directory,
    st0: Directory,
    st1: Directory,
    st2: Directory,
    c: ChannelId,
    s0: Set<AccountId>,
    dsk: Seq<Decision>,
    d: Decision,
    rid: RequestId,
    j: int,
)
    requires
        pre.wf(),
        st0.wf(),
        pre.has_channel(c),
        pre.requests@.len() <= usize::MAX as int,
        pre.channels@.len() <= usize::MAX as int,
        s0 == pre.pending_senders(c),
        st0.channels@.len() == pre.channels@.len(),
        forall|a: AccountId|
            st0.has_member(a, c) <==> (pre.has_member(a, c) || joined_after(s0, dsk).contains(a)),
        forall|a: AccountId|
            st0.member_channels(a) == (if joined_after(s0, dsk).contains(a) {
                pre.member_channels(a).push(c)
            } else {
                pre.member_channels(a)
            }),
        st0.requests@.len() == pre.requests@.len(),
        forall|i: int|
            0 <= i < pre.requests@.len() ==> #[trigger] st0.requests@[i] == settled_request(
                pre,
                c,
                s0,
                dsk,
                i,
            ),
        st0.pending_ids(c) == pre.pending_ids(c).filter(
            |r: RequestId| st0.requests@[r as int].approval == Approval::Unset,
        ),
        st0.pending_senders(c) == remaining_after(s0, dsk),
        st0.owner_of(c) == pre.owner_of(c),
        st0.channel(c).name == pre.channel(c).name,
        st0.channel(c).image == pre.channel(c).image,
        st0.messages_of(c) == pre.messages_of(c),
        st0.channel(c).live_messages == pre.channel(c).live_messages,
        forall|c2: int|
            0 <= c2 < pre.channels@.len() && c2 != c as int ==> st0.channels@[c2]
                == pre.channels@[c2],
        st0.events@ == pre.events@ + joined_after(s0, dsk).map_values(
            |a: AccountId| Event::MemberJoined((MemberJoined { channel_id: c, account: a })),
        ),
        0 <= j < st0.pending_ids(c).len(),
        st0.pending_ids(c)[j] == rid,
        st0.request(rid).sender == d.0,
        st1.requests@ == st0.requests@.update(
            rid as int,
            (Request {
                sender: st0.request(rid).sender,
                channel_id: st0.request(rid).channel_id,
                approval: (if d.1 {
                    Approval::Approved
                } else {
                    Approval::Rejected
                }),
                requested_at: st0.request(rid).requested_at,
            }),
        ),
        st1.channels@.len() == st0.channels@.len(),
        st1.channel(c).pending@ == st0.channel(c).pending@.remove(j),
        st1.channel(c).owner == st0.channel(c).owner,
        st1.channel(c).name == st0.channel(c).name,
        st1.channel(c).image == st0.channel(c).image,
        st1.channel(c).members@ == st0.channel(c).members@,
        st1.channel(c).messages@ == st0.channel(c).messages@,
        st1.channel(c).live_messages == st0.channel(c).live_messages,
        forall|c2: int|
            0 <= c2 < st0.channels@.len() && c2 != c as int ==> st1.channels@[c2]
                == st0.channels@[c2],
        st1.member_index == st0.member_index,
        st1.events@ == st0.events@,
        d.1 ==> crate::directory::member_added(st1, st2, c, d.0) && st2.member_lists_wf()
            && st2.index_lists_wf() && st2.indexes_consistent(),
        !d.1 ==> st2 == st1,
    ensures
        st2.wf(),
        st2.channels@.len() == pre.channels@.len(),
        joined_after(s0, dsk.push(d)) == (if d.1 {
            joined_after(s0, dsk).push(d.0)
        } else {
            joined_after(s0, dsk)
        }),
        rejected_after(s0, dsk.push(d)).len() as int == rejected_after(s0, dsk).len() + (if d.1 {
            0int
        } else {
            1int
        }),
        not_found_after(s0, dsk.push(d)) == not_found_after(s0, dsk),
        forall|a: AccountId|
            st2.has_member(a, c) <==> (pre.has_member(a, c) || joined_after(
                s0,
                dsk.push(d),
            ).contains(a)),
        forall|a: AccountId|
            st2.member_channels(a) == (if joined_after(s0, dsk.push(d)).contains(a) {
                pre.member_channels(a).push(c)
            } else {
                pre.member_channels(a)
            }),
        st2.requests@.len() == pre.requests@.len(),
        forall|i: int|
            0 <= i < pre.requests@.len() ==> #[trigger] st2.requests@[i] == settled_request(
                pre,
                c,
                s0,
                dsk.push(d),
                i,
            ),
        st2.pending_ids(c) == pre.pending_ids(c).filter(
            |r: RequestId| st2.requests@[r as int].approval == Approval::Unset,
        ),
        st2.pending_senders(c) == remaining_after(s0, dsk.push(d)),
        st2.owner_of(c) == pre.owner_of(c),
        st2.channel(c).name == pre.channel(c).name,
        st2.channel(c).image == pre.channel(c).image,
        st2.messages_of(c) == pre.messages_of(c),
        st2.channel(c).live_messages == pre.channel(c).live_messages,
        forall|c2: int|
            0 <= c2 < pre.channels@.len() && c2 != c as int ==> st2.channels@[c2]
                == pre.channels@[c2],
        st2.events@ == pre.events@ + joined_after(s0, dsk.push(d)).map_values(
            |a: AccountId| Event::MemberJoined((MemberJoined { channel_id: c, account: a })),
        ),
{
    let a0 = d.0;
    let ds1 = dsk.push(d);
    let jo0 = joined_after(s0, dsk);
    let re0 = rejected_after(s0, dsk);
    let rem0 = remaining_after(s0, dsk);
    let p_pre = pre.pending_ids(c);
    let p0 = st0.pending_ids(c);
    let p1 = st1.pending_ids(c);
    let p_pred = |r: RequestId| st0.requests@[r as int].approval == Approval::Unset;
    let q_pred = |r: RequestId| st1.requests@[r as int].approval == Approval::Unset;
    assert(ds1.drop_last() =~= dsk);
    assert(ds1.last() == d);
    lemma_batch_model_disjoint(s0, dsk);
    // the found entry is a live pending request of this channel
    assert(rid < st0.requests@.len() && st0.request(rid).channel_id == c && st0.request(
        rid,
    ).approval == Approval::Unset && !st0.has_member(a0, c)) by {
        assert(st0.channels@[c as int].pending@[j] == rid);
    }
    assert(st0.pending_senders(c).contains(a0)) by {
        assert(st0.request(st0.pending_ids(c)[j]).sender == a0);
        assert(st0.has_pending_from(a0, c));
    }
    assert(rem0.contains(a0));
    assert(!jo0.contains(a0) && !re0.contains(a0));
    // one model step
    assert(remaining_after(s0, ds1) == rem0.remove(a0));
    assert(joined_after(s0, ds1) == (if d.1 {
        jo0.push(a0)
    } else {
        jo0
    }));
    assert(rejected_after(s0, ds1) == (if d.1 {
        re0
    } else {
        re0.insert(a0)
    }));
    assert(not_found_after(s0, ds1) == not_found_after(s0, dsk));
    if !d.1 {
        vstd::set::axiom_set_insert_len(re0, a0);
    }
    // the settled entry was still untouched in the request store
    assert(st0.requests@[rid as int] == pre.requests@[rid as int]) by {
        assert(st0.requests@[rid as int] == settled_request(pre, c, s0, dsk, rid as int));
        if p_pre.contains(rid) && (jo0.contains(pre.requests@[rid as int].sender) || re0.contains(
            pre.requests@[rid as int].sender,
        )) {
            assert(st0.requests@[rid as int].approval != Approval::Unset);
        }
    }
    assert(pre.requests@[rid as int].sender == a0 && pre.requests@[rid as int].approval
        == Approval::Unset && pre.requests@[rid as int].channel_id == c);
    assert(p_pre.contains(rid)) by {
        assert(p0.contains(rid)) by {
            assert(p0[j] == rid);
        }
        p_pre.lemma_filter_contains_rev(p_pred, rid);
    }
    // every pending identifier of this channel names an issued request
    assert forall|x: u64| #[trigger] p_pre.contains(x) implies x < pre.requests@.len()
        && pre.request(x).channel_id == c && pre.request(x).sender == pre.requests@[x as int].sender by {
        let px = choose|px: int| 0 <= px < p_pre.len() && p_pre[px] == x;
        assert(pre.channels@[c as int].pending@[px] == x);
    }
    // rid is the only pre-pending entry whose sender is a0
    assert forall|x: u64| #[trigger] p_pre.contains(x) && x != rid implies pre.request(x).sender
        != a0 by {
        let px = choose|px: int| 0 <= px < p_pre.len() && p_pre[px] == x;
        let pr = choose|pr: int| 0 <= pr < p_pre.len() && p_pre[pr] == rid;
        if pre.request(x).sender == a0 {
            if px < pr {
                assert(pre.request(pre.channels@[c as int].pending@[px]).sender != pre.request(
                    pre.channels@[c as int].pending@[pr],
                ).sender);
            } else {
                assert(px != pr);
                assert(pre.request(pre.channels@[c as int].pending@[pr]).sender != pre.request(
                    pre.channels@[c as int].pending@[px],
                ).sender);
            }
        }
    }
    // both pending lists are duplicate-free
    assert(p_pre.no_duplicates()) by {
        assert forall|x: int, y: int| 0 <= x < y < p_pre.len() implies p_pre[x] != p_pre[y] by {
            assert(pre.request(pre.channels@[c as int].pending@[x]).sender != pre.request(
                pre.channels@[c as int].pending@[y],
            ).sender);
        }
    }
    assert(p0.no_duplicates()) by {
        assert forall|x: int, y: int| 0 <= x < y < p0.len() implies p0[x] != p0[y] by {
            assert(st0.request(st0.channels@[c as int].pending@[x]).sender != st0.request(
                st0.channels@[c as int].pending@[y],
            ).sender);
        }
    }
    assert(forall|x: int| 0 <= x < j ==> p0[x] != rid);
    crate::directory::lemma_remove_at(p0, j);
    assert(p1 == p0.remove(j));
    assert(p1 == p0.remove_value(rid));
    assert(!p1.contains(rid));
    // delisting the settled entry is exactly re-filtering by "still unset"
    assert forall|x: u64| p_pre.contains(x) implies #[trigger] q_pred(x) == (p_pred(x) && x
        != rid) by {
        if x == rid {
            assert(st1.requests@[rid as int].approval != Approval::Unset);
        } else {
            assert(x < pre.requests@.len());
            assert(st1.requests@[x as int] == st0.requests@[x as int]);
        }
    }
    lemma_filter_settle(p_pre, p_pred, q_pred, rid);
    assert(p1 == p_pre.filter(q_pred));
    // the membership primitive leaves requests and pending lists alone
    assert(st2.requests@ == st1.requests@ && st2.channels@.len() == st1.channels@.len()
        && st2.channel(c).pending@ == st1.channel(c).pending@ && st2.channel(c).name == st1.channel(
        c,
    ).name && st2.channel(c).image == st1.channel(c).image && st2.channel(c).owner == st1.channel(
        c,
    ).owner && st2.channel(c).messages@ == st1.channel(c).messages@ && st2.channel(
        c,
    ).live_messages == st1.channel(c).live_messages) by {
        if d.1 {
            assert(crate::directory::channel_except_members(st1.channel(c), st2.channel(c)));
        }
    }
    assert forall|c2: int|
        0 <= c2 < pre.channels@.len() && c2 != c as int implies st2.channels@[c2]
        == pre.channels@[c2] by {
        assert(st1.channels@[c2] == st0.channels@[c2]);
    }
    assert(st2.pending_ids(c) == p1);
    // the ensures filter speaks over st2's request store, which equals st1's
    assert(st2.pending_ids(c) == pre.pending_ids(c).filter(
        |r: RequestId| st2.requests@[r as int].approval == Approval::Unset,
    )) by {
        assert forall|x: u64| #[trigger] p_pre.contains(x) implies ((
        |r: RequestId| st2.requests@[r as int].approval == Approval::Unset)(x) == q_pred(x)) by {}
        lemma_filter_pointwise(
            p_pre,
            q_pred,
            |r: RequestId| st2.requests@[r as int].approval == Approval::Unset,
        );
    }
    // request store entries, pointwise
    assert forall|i: int| 0 <= i < pre.requests@.len() implies #[trigger] st2.requests@[i]
        == settled_request(pre, c, s0, ds1, i) by {
        if i == rid as int {
            assert(st2.requests@[i] == st1.requests@[i]);
            if d.1 {
                assert(joined_after(s0, ds1).contains(a0)) by {
                    assert(joined_after(s0, ds1).last() == a0);
                }
            } else {
                assert(!joined_after(s0, ds1).contains(a0));
                assert(rejected_after(s0, ds1).contains(a0));
            }
        } else {
            assert(st2.requests@[i] == st0.requests@[i]);
            assert(st0.requests@[i] == settled_request(pre, c, s0, dsk, i));
            let sender = pre.requests@[i].sender;
            assert((i as RequestId) as int == i);
            if p_pre.contains(i as RequestId) {
                assert(i as RequestId != rid);
                assert(pre.request(i as RequestId).sender != a0);
                assert(joined_after(s0, ds1).contains(sender) == jo0.contains(sender)) by {
                    if d.1 {
                        assert(jo0.push(a0).contains(sender) == (jo0.contains(sender) || sender
                            == a0)) by {
                            if jo0.contains(sender) {
                                let w = choose|w: int| 0 <= w < jo0.len() && jo0[w] == sender;
                                assert(jo0.push(a0)[w] == sender);
                            }
                            if jo0.push(a0).contains(sender) {
                                let w = choose|w: int|
                                    0 <= w < jo0.push(a0).len() && jo0.push(a0)[w] == sender;
                                if w < jo0.len() {
                                    assert(jo0.contains(sender));
                                }
                            }
                        }
                    }
                }
                assert(rejected_after(s0, ds1).contains(sender) == re0.contains(sender));
            }
        }
    }
    // the pending senders after the step are exactly the remaining set
    assert(st2.pending_senders(c) =~= rem0.remove(a0)) by {
        assert forall|a: AccountId| #[trigger] st2.pending_senders(c).contains(a) implies rem0.remove(
            a0,
        ).contains(a) by {
            assert(st2.has_pending_from(a, c));
            let j2 = choose|j2: int|
                0 <= j2 < st2.pending_ids(c).len() && st2.request(st2.pending_ids(c)[j2]).sender
                    == a;
            let r2 = st2.pending_ids(c)[j2];
            assert(p1.contains(r2));
            assert(r2 != rid);
            assert(p0.contains(r2));
            assert(p_pre.contains(r2)) by {
                p_pre.lemma_filter_contains_rev(p_pred, r2);
            }
            assert(r2 < pre.requests@.len());
            assert(st2.request(r2) == st0.request(r2));
            assert(st0.has_pending_from(a, c)) by {
                let j3 = choose|j3: int| 0 <= j3 < p0.len() && p0[j3] == r2;
                assert(st0.request(st0.pending_ids(c)[j3]).sender == a);
            }
            assert(rem0.contains(a));
            assert(a != a0) by {
                if a == a0 {
                    assert(pre.request(r2).sender == st0.request(r2).sender) by {
                        assert(st0.requests@[r2 as int] == settled_request(
                            pre,
                            c,
                            s0,
                            dsk,
                            r2 as int,
                        ));
                    }
                    assert(pre.request(r2).sender == a0);
                }
            }
        }
        assert forall|a: AccountId| #[trigger] rem0.remove(a0).contains(a) implies st2.pending_senders(
            c,
        ).contains(a) by {
            assert(rem0.contains(a) && a != a0);
            assert(st0.pending_senders(c).contains(a));
            assert(st0.has_pending_from(a, c));
            let j3 = choose|j3: int|
                0 <= j3 < p0.len() && st0.request(p0[j3]).sender == a;
            let r3 = p0[j3];
            assert(r3 != rid) by {
                assert(st0.request(rid).sender == a0);
            }
            assert(p1.contains(r3)) by {
                assert(p0.contains(r3));
            }
            let j4 = choose|j4: int| 0 <= j4 < p1.len() && p1[j4] == r3;
            assert(st2.request(r3) == st0.request(r3)) by {
                assert(st1.requests@[r3 as int] == st0.requests@[r3 as int]);
            }
            assert(st2.request(st2.pending_ids(c)[j4]).sender == a);
            assert(st2.has_pending_from(a, c));
        }
    }
    assert(st2.pending_senders(c) == remaining_after(s0, ds1));
    // membership, the reverse index and the event log
    if d.1 {
        assert(st2.members_of(c) == st0.members_of(c).push(a0)) by {
            assert(st1.members_of(c) == st0.members_of(c));
        }
        assert forall|a: AccountId|
            st2.has_member(a, c) <==> (pre.has_member(a, c) || joined_after(
                s0,
                ds1,
            ).contains(a)) by {
            assert(st2.members_of(c).contains(a) == (st0.members_of(c).contains(a) || a == a0))
                by {
                assert(st2.members_of(c)[st0.members_of(c).len() as int] == a0);
                if st0.members_of(c).contains(a) {
                    let w = choose|w: int|
                        0 <= w < st0.members_of(c).len() && st0.members_of(c)[w] == a;
                    assert(st2.members_of(c)[w] == a);
                }
                if st2.members_of(c).contains(a) {
                    let w = choose|w: int|
                        0 <= w < st2.members_of(c).len() && st2.members_of(c)[w] == a;
                    if w < st0.members_of(c).len() {
                        assert(st0.members_of(c).contains(a));
                    }
                }
            }
            assert(joined_after(s0, ds1).contains(a) == (jo0.contains(a) || a == a0)) by {
                assert(joined_after(s0, ds1)[jo0.len() as int] == a0);
                if jo0.contains(a) {
                    let w = choose|w: int| 0 <= w < jo0.len() && jo0[w] == a;
                    assert(joined_after(s0, ds1)[w] == a);
                }
                if joined_after(s0, ds1).contains(a) {
                    let w = choose|w: int|
                        0 <= w < joined_after(s0, ds1).len() && joined_after(s0, ds1)[w] == a;
                    if w < jo0.len() {
                        assert(jo0.contains(a));
                    }
                }
            }
        }
        assert forall|a: AccountId|
            st2.member_channels(a) == (if joined_after(s0, ds1).contains(a) {
                pre.member_channels(a).push(c)
            } else {
                pre.member_channels(a)
            }) by {
            assert(joined_after(s0, ds1).contains(a) == (jo0.contains(a) || a == a0)) by {
                assert(joined_after(s0, ds1)[jo0.len() as int] == a0);
                if jo0.contains(a) {
                    let w = choose|w: int| 0 <= w < jo0.len() && jo0[w] == a;
                    assert(joined_after(s0, ds1)[w] == a);
                }
                if joined_after(s0, ds1).contains(a) {
                    let w = choose|w: int|
                        0 <= w < joined_after(s0, ds1).len() && joined_after(s0, ds1)[w] == a;
                    if w < jo0.len() {
                        assert(jo0.contains(a));
                    }
                }
            }
            if a == a0 {
                assert(st1.member_channels(a0) == pre.member_channels(a0));
                assert(st2.member_channels(a0) == st1.member_channels(a0).push(c));
            } else {
                assert(st2.member_channels(a) == st1.member_channels(a));
                assert(st1.member_channels(a) == st0.member_channels(a));
            }
        }
        assert(st2.events@ == pre.events@ + joined_after(s0, ds1).map_values(
            |a: AccountId| Event::MemberJoined((MemberJoined { channel_id: c, account: a })),
        )) by {
            let f = |a: AccountId| Event::MemberJoined(
                (MemberJoined { channel_id: c, account: a }),
            );
            assert(st2.events@ == st1.events@.push(
                Event::MemberJoined((MemberJoined { channel_id: c, account: a0 })),
            ));
            assert(jo0.push(a0).map_values(f) =~= jo0.map_values(f).push(f(a0)));
            assert((pre.events@ + jo0.map_values(f)).push(f(a0)) =~= pre.events@ + jo0.map_values(
                f,
            ).push(f(a0)));
        }
    } else {
        assert(st2 == st1);
        assert forall|a: AccountId|
            st2.has_member(a, c) <==> (pre.has_member(a, c) || joined_after(
                s0,
                ds1,
            ).contains(a)) by {
            assert(st2.members_of(c) == st0.members_of(c));
            assert(st2.has_member(a, c) == st0.has_member(a, c));
        }
        assert forall|a: AccountId|
            st2.member_channels(a) == (if joined_after(s0, ds1).contains(a) {
                pre.member_channels(a).push(c)
            } else {
                pre.member_channels(a)
            }) by {
            assert(st2.member_channels(a) == st0.member_channels(a));
        }
        assert(st2.events@ == pre.events@ + joined_after(s0, ds1).map_values(
            |a: AccountId| Event::MemberJoined((MemberJoined { channel_id: c, account: a })),
        ));
    }
    // the whole invariant holds again
    if !d.1 {
        lemma_membership_conjuncts_carry(st0, st2);
    }
    assert(st2.requests_wf()) by {
        assert forall|r: int| 0 <= r < st2.requests@.len() implies {
            let req = #[trigger] st2.requests@[r];
            &&& st2.has_channel(req.channel_id)
            &&& (req.approval == Approval::Unset <==> st2.channel(req.channel_id).pending@.contains(
                r as RequestId,
            ))
        } by {
            if r == rid as int {
                assert(st2.requests@[r].approval != Approval::Unset);
                assert(st2.requests@[r].channel_id == c);
                assert(!st2.channel(c).pending@.contains(r as RequestId));
            } else {
                assert((r as RequestId) as int == r);
                assert(r as RequestId != rid);
                assert(st2.requests@[r] == st0.requests@[r]);
                let c0 = st0.requests@[r].channel_id;
                assert(st0.has_channel(c0));
                if c0 == c {
                    assert(p1.contains(r as RequestId) <==> p0.contains(r as RequestId));
                } else {
                    assert(st2.channel(c0).pending@ == st0.channel(c0).pending@) by {
                        assert(st1.channels@[c0 as int] == st0.channels@[c0 as int]);
                        if d.1 {
                            assert(st2.channels@[c0 as int] == st1.channels@[c0 as int]);
                        }
                    }
                }
            }
        }
    }
    assert(st2.pending_lists_wf()) by {
        assert forall|c2: int, jx: int|
            0 <= c2 < st2.channels@.len() && 0 <= jx < st2.channels@[c2].pending@.len() implies {
            let e = #[trigger] st2.channels@[c2].pending@[jx];
            &&& st2.has_request(e)
            &&& st2.request(e).channel_id == c2 as ChannelId
            &&& st2.request(e).approval == Approval::Unset
            &&& !st2.has_member(st2.request(e).sender, c2 as ChannelId)
        } by {
            if c2 == c as int {
                let e = st2.channels@[c2].pending@[jx];
                assert(p1.contains(e)) by {
                    assert(p1[jx] == e);
                }
                assert(e != rid);
                assert(p0.contains(e));
                let je = choose|je: int| 0 <= je < p0.len() && p0[je] == e;
                assert(st0.channels@[c2].pending@[je] == e);
                assert(st0.has_request(e) && st0.request(e).channel_id == c && st0.request(
                    e,
                ).approval == Approval::Unset && !st0.has_member(st0.request(e).sender, c));
                assert(st2.request(e) == st0.request(e)) by {
                    assert(st1.requests@[e as int] == st0.requests@[e as int]);
                }
                let se = st0.request(e).sender;
                assert(se != d.0) by {
                    if se == d.0 {
                        assert(je != j);
                        if je < j {
                            assert(st0.request(st0.channels@[c2].pending@[je]).sender
                                != st0.request(st0.channels@[c2].pending@[j]).sender);
                        } else {
                            assert(st0.request(st0.channels@[c2].pending@[j]).sender
                                != st0.request(st0.channels@[c2].pending@[je]).sender);
                        }
                    }
                }
                assert(!st2.has_member(se, c)) by {
                    if d.1 {
                        assert(st2.members_of(c) == st0.members_of(c).push(d.0));
                        if st2.members_of(c).contains(se) {
                            let w = choose|w: int|
                                0 <= w < st2.members_of(c).len() && st2.members_of(c)[w] == se;
                            if w < st0.members_of(c).len() {
                                assert(st0.members_of(c).contains(se));
                            } else {
                                assert(se == d.0);
                            }
                        }
                    } else {
                        assert(st2.members_of(c) == st0.members_of(c));
                    }
                }
            } else {
                assert((c2 as ChannelId) as int == c2);
                assert(c2 as ChannelId != c);
                assert(st2.channels@[c2] == st0.channels@[c2]) by {
                    assert(st1.channels@[c2] == st0.channels@[c2]);
                    if d.1 {
                        assert(st2.channels@[c2] == st1.channels@[c2]);
                    }
                }
                let e = st0.channels@[c2].pending@[jx];
                assert(st0.has_request(e) && st0.request(e).channel_id == c2 as ChannelId
                    && st0.request(e).approval == Approval::Unset && !st0.has_member(
                    st0.request(e).sender,
                    c2 as ChannelId,
                ));
                assert(e != rid) by {
                    assert(st0.request(rid).channel_id == c);
                }
                assert(st2.request(e) == st0.request(e)) by {
                    assert(st1.requests@[e as int] == st0.requests@[e as int]);
                }
                assert(st2.members_of(c2 as ChannelId) == st0.members_of(c2 as ChannelId));
            }
        }
    }
    assert(st2.pending_senders_unique()) by {
        assert forall|c2: int, x: int, y: int|
            0 <= c2 < st2.channels@.len() && 0 <= x < y < st2.channels@[c2].pending@.len() implies st2.request(
            #[trigger] st2.channels@[c2].pending@[x],
        ).sender != st2.request(#[trigger] st2.channels@[c2].pending@[y]).sender by {
            if c2 == c as int {
                let e1 = st2.channels@[c2].pending@[x];
                let e2 = st2.channels@[c2].pending@[y];
                assert(p1[x] == e1 && p1[y] == e2);
                assert(e1 != e2) by {
                    assert(p1.no_duplicates());
                }
                assert(p1.contains(e1) && p1.contains(e2)) by {
                    assert(p1[x] == e1 && p1[y] == e2);
                }
                assert(e1 != rid && e2 != rid);
                assert(p0.contains(e1) && p0.contains(e2));
                let w1 = choose|w1: int| 0 <= w1 < p0.len() && p0[w1] == e1;
                let w2 = choose|w2: int| 0 <= w2 < p0.len() && p0[w2] == e2;
                assert(w1 != w2);
                assert(st2.request(e1) == st0.request(e1) && st2.request(e2) == st0.request(e2))
                    by {
                    assert(st1.requests@[e1 as int] == st0.requests@[e1 as int]);
                    assert(st1.requests@[e2 as int] == st0.requests@[e2 as int]);
                }
                if w1 < w2 {
                    assert(st0.request(st0.channels@[c2].pending@[w1]).sender != st0.request(
                        st0.channels@[c2].pending@[w2],
                    ).sender);
                } else {
                    assert(st0.request(st0.channels@[c2].pending@[w2]).sender != st0.request(
                        st0.channels@[c2].pending@[w1],
                    ).sender);
                }
            } else {
                assert((c2 as ChannelId) as int == c2);
                assert(c2 as ChannelId != c);
                assert(st2.channels@[c2] == st0.channels@[c2]) by {
                    assert(st1.channels@[c2] == st0.channels@[c2]);
                    if d.1 {
                        assert(st2.channels@[c2] == st1.channels@[c2]);
                    }
                }
                let e1 = st0.channels@[c2].pending@[x];
                let e2 = st0.channels@[c2].pending@[y];
                assert(st0.has_request(e1) && st0.has_request(e2));
                assert(e1 != rid && e2 != rid) by {
                    assert(st0.request(rid).channel_id == c);
                    assert(st0.request(e1).channel_id == c2 as ChannelId);
                    assert(st0.request(e2).channel_id == c2 as ChannelId);
                }
                assert(st2.request(e1) == st0.request(e1) && st2.request(e2) == st0.request(e2))
                    by {
                    assert(st1.requests@[e1 as int] == st0.requests@[e1 as int]);
                    assert(st1.requests@[e2 as int] == st0.requests@[e2 as int]);
                }
            }
        }
    }
    assert(st2.ledgers_wf()) by {
        assert forall|c2: int| 0 <= c2 < st2.channels@.len() implies {
            &&& (#[trigger] st2.channels@[c2]).messages@.len() <= u32::MAX as int
            &&& st2.channels@[c2].live_messages == crate::directory::count_live(
                st2.channels@[c2].messages@,
            )
        } by {
            assert(st2.channels@[c2].messages@ == st0.channels@[c2].messages@
                && st2.channels@[c2].live_messages == st0.channels@[c2].live_messages) by {
                if c2 != c as int {
                    assert(st1.channels@[c2] == st0.channels@[c2]);
                    if d.1 {
                        assert(st2.channels@[c2] == st1.channels@[c2]);
                    }
                }
            }
        }
    }
}

/// Two predicates that agree on every element of a sequence filter it the
/// same way.
proof fn lemma_filter_pointwise(s: Seq<u64>, p: spec_fn(u64) -> bool, q: spec_fn(u64) -> bool)
    requires
        forall|x: u64| s.contains(x) ==> #[trigger] p(x) == q(x),
    ensures
        s.filter(p) == s.filter(q),
    decreases s.len(),
{
    if s.len() == 0 {
        reveal(Seq::filter);
        assert(s.filter(p) =~= s.filter(q));
    } else {
        let s0 = s.drop_last();
        let x = s.last();
        assert(s =~= s0.push(x));
        assert forall|y: u64| #[trigger] s0.contains(y) implies s.contains(y) by {
            let i = choose|i: int| 0 <= i < s0.len() && s0[i] == y;
            assert(s[i] == y);
        }
        lemma_filter_pointwise(s0, p, q);
        s0.lemma_filter_push(x, p);
        s0.lemma_filter_push(x, q);
        assert(s.filter(p) == s0.push(x).filter(p));
        assert(s.filter(q) == s0.push(x).filter(q));
        assert(s.contains(x)) by {
            assert(s[s.len() - 1] == x);
        }
    }
}

impl Directory {
    /// The record of the pending request at position `j` of channel `c`'s
    /// pending list, as the pending-request query returns it.
    pub open spec fn pending_record(self, c: ChannelId, j: int) -> RequestRecord {
        RequestRecord {
            request_id: self.pending_ids(c)[j],
            request: self.request(self.pending_ids(c)[j]),
        }
    }

    /// The position of `account`'s pending request in channel `channel_id`'s
    /// pending list, if it has one.
    fn find_pending(&self, channel_id: ChannelId, account: AccountId) -> (r: Option<usize>)
        requires
            self.wf(),
            self.has_channel(channel_id),
        ensures
            match r {
                Some(j) => j < self.pending_ids(channel_id).len() && self.request(
                    self.pending_ids(channel_id)[j as int],
                ).sender == account,
                None => !self.has_pending_from(account, channel_id),
            },
    {
        let idx = self.channel_index(channel_id);
        let pending = &self.channels[idx].pending;
        let mut j: usize = 0;
        while j < pending.len()
            invariant
                self.wf(),
                self.has_channel(channel_id),
                pending == &self.channels@[channel_id as int].pending,
                0 <= j <= pending@.len(),
                forall|k: int|
                    0 <= k < j ==> self.request(#[trigger] pending@[k]).sender != account,
            decreases pending@.len() - j,
        {
            let rid = pending[j];
            assert(self.has_request(rid));
            let n = self.requests.len();
            assert(rid < n as u64);
            if self.requests[rid as usize].sender == account {
                return Some(j);
            }
            j += 1;
        }
        return None;
    }

    /// Files a join request by `caller` for a channel: refused for a member
    /// or while an earlier request of theirs is still pending; otherwise a
    /// fresh identifier is issued and the request joins the channel's
    /// pending list.
    pub fn send_request(&mut self, caller: AccountId, now: Timestamp, channel_id: ChannelId) -> (r:
        Result<RequestId, SquidChatError>)
        requires
            old(self).wf(),
        ensures
            final(self).wf(),
            r is Ok <==> {
                &&& old(self).has_channel(channel_id)
                &&& !old(self).has_member(caller, channel_id)
                &&& !old(self).has_pending_from(caller, channel_id)
                &&& old(self).requests@.len() < usize::MAX
            },
            r matches Err(e) ==> {
                &&& *final(self) == *old(self)
                &&& e == (if !old(self).has_channel(channel_id) {
                    SquidChatError::Custom(Reason::ChannelNotFound)
                } else if old(self).has_member(caller, channel_id) {
                    SquidChatError::Custom(Reason::AlreadyMember)
                } else if old(self).has_pending_from(caller, channel_id) {
                    SquidChatError::Custom(Reason::DuplicatePending)
                } else {
                    SquidChatError::Custom(Reason::AllocationExhausted)
                })
            },
            r matches Ok(rid) ==> {
                &&& rid as int == old(self).request_count()
                &&& final(self).request_count() == old(self).request_count() + 1
                &&& final(self).request(rid) == (Request {
                    sender: caller,
                    channel_id,
                    approval: Approval::Unset,
                    requested_at: now,
                })
                &&& forall|i: int|
                    0 <= i < old(self).requests@.len() ==> final(self).requests@[i] == old(
                        self,
                    ).requests@[i]
                &&& final(self).pending_ids(channel_id) == old(self).pending_ids(channel_id).push(
                    rid,
                )
                &&& final(self).has_pending_from(caller, channel_id)
                &&& final(self).members_of(channel_id) == old(self).members_of(channel_id)
                &&& final(self).messages_of(channel_id) == old(self).messages_of(channel_id)
                &&& final(self).channel(channel_id).live_messages == old(self).channel(
                    channel_id,
                ).live_messages
                &&& final(self).owner_of(channel_id) == old(self).owner_of(channel_id)
                &&& final(self).channel(channel_id).name == old(self).channel(channel_id).name
                &&& final(self).channel(channel_id).image == old(self).channel(channel_id).image
                &&& final(self).channel_count() == old(self).channel_count()
                &&& forall|c2: int|
                    0 <= c2 < old(self).channels@.len() && c2 != channel_id as int
                        ==> final(self).channels@[c2] == old(self).channels@[c2]
                &&& final(self).member_index == old(self).member_index
                &&& final(self).events@ == old(self).events@.push(
                    Event::RequestSent((RequestSent { channel_id, request_id: rid, sender: caller })),
                )
            },
    {
        if channel_id >= self.channels.len() as u64 {
            return Err(SquidChatError::Custom(Reason::ChannelNotFound));
        }
        if self.is_member(caller, channel_id) {
            return Err(SquidChatError::Custom(Reason::AlreadyMember));
        }
        match self.find_pending(channel_id, caller) {
            Some(j) => {
                assert(self.has_pending_from(caller, channel_id));
                return Err(SquidChatError::Custom(Reason::DuplicatePending));
            },
            None => {},
        }
        if self.requests.len() == usize::MAX {
            return Err(SquidChatError::Custom(Reason::AllocationExhausted));
        }
        let ghost pre = *self;
        let rid = self.requests.len() as u64;
        let idx = self.channel_index(channel_id);
        self.requests.push(
            Request { sender: caller, channel_id, approval: Approval::Unset, requested_at: now },
        );
        self.channels[idx].pending.push(rid);
        self.events.push(
            Event::RequestSent(RequestSent { channel_id, request_id: rid, sender: caller }),
        );
        proof {
            let post = *self;
            assert(post.pending_ids(channel_id) =~= pre.pending_ids(channel_id).push(rid));
            assert(post.has_pending_from(caller, channel_id)) by {
                let plen = post.pending_ids(channel_id).len();
                assert(post.pending_ids(channel_id)[plen - 1] == rid);
                assert(post.request(rid).sender == caller);
            }
            assert forall|a: AccountId, c: ChannelId|
                #![trigger post.has_member(a, c)]
                #![trigger post.in_member_index(a, c)]
                post.has_member(a, c) <==> post.in_member_index(a, c) by {
                assert(post.member_channels(a) == pre.member_channels(a));
                if (c as int) < pre.channels@.len() {
                    assert(post.members_of(c) == pre.members_of(c));
                }
                assert(post.has_member(a, c) == pre.has_member(a, c));
                assert(pre.has_member(a, c) <==> pre.in_member_index(a, c));
            }
            assert(post.member_lists_wf()) by {
                assert forall|c: int|
                    0 <= c < post.channels@.len() implies (#[trigger] post.channels@[c]).members@.no_duplicates() by {
                    assert(post.channels@[c].members@ == pre.channels@[c].members@);
                }
            }
            assert(post.requests_wf()) by {
                assert forall|r: int| 0 <= r < post.requests@.len() implies {
                    let req = #[trigger] post.requests@[r];
                    &&& post.has_channel(req.channel_id)
                    &&& (req.approval == Approval::Unset <==> post.channel(
                        req.channel_id,
                    ).pending@.contains(r as RequestId))
                } by {
                    if r == rid as int {
                        let plen = post.pending_ids(channel_id).len();
                        assert(post.pending_ids(channel_id)[plen - 1] == rid);
                        assert(post.channel(channel_id).pending@.contains(r as RequestId));
                    } else {
                        let req = post.requests@[r];
                        assert(req == pre.requests@[r]);
                        let c0 = req.channel_id;
                        let p0 = pre.channel(c0).pending@;
                        let p1 = post.channel(c0).pending@;
                        if c0 == channel_id {
                            assert(p1 =~= p0.push(rid));
                            assert(p1.contains(r as RequestId) <==> p0.contains(r as RequestId))
                                by {
                                if p0.contains(r as RequestId) {
                                    let k = choose|k: int|
                                        0 <= k < p0.len() && p0[k] == r as RequestId;
                                    assert(p1[k] == r as RequestId);
                                }
                                if p1.contains(r as RequestId) {
                                    let k = choose|k: int|
                                        0 <= k < p1.len() && p1[k] == r as RequestId;
                                    assert(k < p0.len());
                                }
                            }
                        } else {
                            assert(p1 == p0);
                        }
                        assert(pre.requests_wf());
                    }
                }
            }
            assert(post.pending_lists_wf()) by {
                assert forall|c2: int, j: int|
                    0 <= c2 < post.channels@.len() && 0 <= j < post.channels@[c2].pending@.len() implies {
                    let rid2 = #[trigger] post.channels@[c2].pending@[j];
                    &&& post.has_request(rid2)
                    &&& post.request(rid2).channel_id == c2 as ChannelId
                    &&& post.request(rid2).approval == Approval::Unset
                    &&& !post.has_member(post.request(rid2).sender, c2 as ChannelId)
                } by {
                    assert(post.members_of(c2 as ChannelId) == pre.members_of(c2 as ChannelId));
                    if c2 == channel_id as int && j == post.channels@[c2].pending@.len() - 1 {
                        assert(post.channels@[c2].pending@[j] == rid);
                    } else {
                        assert(post.channels@[c2].pending@[j] == pre.channels@[c2].pending@[j]);
                        let rid2 = pre.channels@[c2].pending@[j];
                        assert(pre.has_request(rid2));
                        assert(post.requests@[rid2 as int] == pre.requests@[rid2 as int]);
                        assert(!pre.has_member(pre.request(rid2).sender, c2 as ChannelId));
                    }
                }
            }
            assert(post.pending_senders_unique()) by {
                assert forall|c2: int, j1: int, j2: int|
                    0 <= c2 < post.channels@.len() && 0 <= j1 < j2 < post.channels@[c2].pending@.len() implies post.request(
                    #[trigger] post.channels@[c2].pending@[j1],
                ).sender != post.request(#[trigger] post.channels@[c2].pending@[j2]).sender by {
                    if c2 == channel_id as int && j2 == post.channels@[c2].pending@.len() - 1 {
                        let rid1 = pre.channels@[c2].pending@[j1];
                        assert(pre.has_request(rid1));
                        assert(post.request(rid1) == pre.request(rid1));
                        assert(pre.request(rid1).sender != caller) by {
                            if pre.request(rid1).sender == caller {
                                assert(pre.has_pending_from(caller, channel_id));
                            }
                        }
                    } else {
                        assert(post.channels@[c2].pending@[j1] == pre.channels@[c2].pending@[j1]);
                        assert(post.channels@[c2].pending@[j2] == pre.channels@[c2].pending@[j2]);
                        let rid1 = pre.channels@[c2].pending@[j1];
                        let rid2 = pre.channels@[c2].pending@[j2];
                        assert(pre.has_request(rid1) && pre.has_request(rid2));
                        assert(post.request(rid1) == pre.request(rid1));
                        assert(post.request(rid2) == pre.request(rid2));
                    }
                }
            }
            assert(post.ledgers_wf()) by {
                assert forall|c2: int| 0 <= c2 < post.channels@.len() implies {
                    &&& (#[trigger] post.channels@[c2]).messages@.len() <= u32::MAX as int
                    &&& post.channels@[c2].live_messages == crate::directory::count_live(
                        post.channels@[c2].messages@,
                    )
                } by {
                    assert(post.channels@[c2].messages@ == pre.channels@[c2].messages@);
                    assert(post.channels@[c2].live_messages == pre.channels@[c2].live_messages);
                }
            }
        }
        Ok(rid)
    }

    /// Settles a batch of decisions over a channel's pending requests; only
    /// the owner may. Each decision is processed independently and
    /// tolerantly, in order: the first decision for a still-pending account
    /// settles its request (approval adds the account as a member through
    /// the shared membership primitive; rejection leaves it outside), and a
    /// decision for an account with no still-pending request only raises
    /// the not-found tally. Settled requests leave the pending list; no
    /// per-item failure fails the call.
    pub fn approve_request(
        &mut self,
        caller: AccountId,
        channel_id: ChannelId,
        decisions: Vec<Decision>,
    ) -> (r: Result<ApprovalSummary, SquidChatError>)
        requires
            old(self).wf(),
        ensures
            final(self).wf(),
            r is Ok <==> (old(self).has_channel(channel_id) && caller == old(self).owner_of(
                channel_id,
            )),
            r matches Err(e) ==> {
                &&& *final(self) == *old(self)
                &&& e == (if !old(self).has_channel(channel_id) {
                    SquidChatError::Custom(Reason::ChannelNotFound)
                } else {
                    SquidChatError::Unauthorized
                })
            },
            r matches Ok(summary) ==> {
                let s0 = old(self).pending_senders(channel_id);
                let ds = decisions@;
                &&& summary.approved_count as int == joined_after(s0, ds).len()
                &&& summary.rejected_count as int == rejected_after(s0, ds).len()
                &&& summary.not_found_count as int == not_found_after(s0, ds)
                &&& final(self).pending_senders(channel_id) == remaining_after(s0, ds)
                &&& forall|a: AccountId|
                    final(self).has_member(a, channel_id) <==> (old(self).has_member(
                        a,
                        channel_id,
                    ) || joined_after(s0, ds).contains(a))
                &&& forall|a: AccountId|
                    final(self).member_channels(a) == (if joined_after(s0, ds).contains(a) {
                        old(self).member_channels(a).push(channel_id)
                    } else {
                        old(self).member_channels(a)
                    })
                &&& final(self).requests@.len() == old(self).requests@.len()
                &&& forall|i: int|
                    0 <= i < old(self).requests@.len() ==> #[trigger] final(self).requests@[i]
                        == settled_request(*old(self), channel_id, s0, ds, i)
                &&& final(self).pending_ids(channel_id) == old(self).pending_ids(channel_id).filter(
                    |rid: RequestId| final(self).requests@[rid as int].approval == Approval::Unset,
                )
                &&& final(self).owner_of(channel_id) == old(self).owner_of(channel_id)
                &&& final(self).channel(channel_id).name == old(self).channel(channel_id).name
                &&& final(self).channel(channel_id).image == old(self).channel(channel_id).image
                &&& final(self).messages_of(channel_id) == old(self).messages_of(channel_id)
                &&& final(self).channel(channel_id).live_messages == old(self).channel(
                    channel_id,
                ).live_messages
                &&& final(self).channel_count() == old(self).channel_count()
                &&& forall|c2: int|
                    0 <= c2 < old(self).channels@.len() && c2 != channel_id as int
                        ==> final(self).channels@[c2] == old(self).channels@[c2]
                &&& final(self).events@ == old(self).events@ + joined_after(s0, ds).map_values(
                    |a: AccountId| Event::MemberJoined((MemberJoined { channel_id, account: a })),
                ).push(
                    Event::ApprovalSubmitted(
                        (ApprovalSubmitted {
                            channel_id,
                            approved_count: summary.approved_count,
                            rejected_count: summary.rejected_count,
                            not_found_count: summary.not_found_count,
                        }),
                    ),
                )
            },
    {
        if channel_id >= self.channels.len() as u64 {
            return Err(SquidChatError::Custom(Reason::ChannelNotFound));
        }
        let idx0 = self.channel_index(channel_id);
        if caller != self.channels[idx0].owner {
            return Err(SquidChatError::Unauthorized);
        }
        let ghost pre = *self;
        let ghost s0 = pre.pending_senders(channel_id);
        let ghost ds = decisions@;
        let _nreq: usize = self.requests.len();
        assert(pre.requests@.len() <= usize::MAX as int);
        let _nch: usize = self.channels.len();
        assert(pre.channels@.len() <= usize::MAX as int);
        let mut approved: usize = 0;
        let mut rejected: usize = 0;
        let mut not_found: usize = 0;
        let mut k: usize = 0;
        proof {
            assert(ds.take(0) =~= Seq::<Decision>::empty());
            assert(pre.pending_ids(channel_id) == pre.pending_ids(channel_id).filter(
                |rid: RequestId| pre.requests@[rid as int].approval == Approval::Unset,
            )) by {
                let p0 = pre.pending_ids(channel_id);
                let f = p0.filter(
                    |rid: RequestId| pre.requests@[rid as int].approval == Approval::Unset,
                );
                assert forall|j: int| 0 <= j < p0.len() implies ((
                |rid: RequestId| pre.requests@[rid as int].approval == Approval::Unset)(
                    #[trigger] p0[j],
                )) by {
                    assert(pre.request(p0[j]).approval == Approval::Unset);
                }
                lemma_filter_all_identity(
                    p0,
                    |rid: RequestId| pre.requests@[rid as int].approval == Approval::Unset,
                );
            }
        }
        while k < decisions.len()
            invariant
                self.wf(),
                pre.wf(),
                0 <= k <= ds.len(),
                ds == decisions@,
                pre.has_channel(channel_id),
                pre.requests@.len() <= usize::MAX as int,
                pre.channels@.len() <= usize::MAX as int,
                s0 == pre.pending_senders(channel_id),
                self.channels@.len() == pre.channels@.len(),
                approved as int == joined_after(s0, ds.take(k as int)).len(),
                rejected as int == rejected_after(s0, ds.take(k as int)).len(),
                not_found as int == not_found_after(s0, ds.take(k as int)),
                approved + rejected + not_found == k,
                forall|a: AccountId|
                    self.has_member(a, channel_id) <==> (pre.has_member(a, channel_id)
                        || joined_after(s0, ds.take(k as int)).contains(a)),
                forall|a: AccountId|
                    self.member_channels(a) == (if joined_after(
                        s0,
                        ds.take(k as int),
                    ).contains(a) {
                        pre.member_channels(a).push(channel_id)
                    } else {
                        pre.member_channels(a)
                    }),
                self.requests@.len() == pre.requests@.len(),
                forall|i: int|
                    0 <= i < pre.requests@.len() ==> #[trigger] self.requests@[i]
                        == settled_request(pre, channel_id, s0, ds.take(k as int), i),
                self.pending_ids(channel_id) == pre.pending_ids(channel_id).filter(
                    |rid: RequestId| self.requests@[rid as int].approval == Approval::Unset,
                ),
                self.pending_senders(channel_id) == remaining_after(s0, ds.take(k as int)),
                self.owner_of(channel_id) == pre.owner_of(channel_id),
                self.channel(channel_id).name == pre.channel(channel_id).name,
                self.channel(channel_id).image == pre.channel(channel_id).image,
                self.messages_of(channel_id) == pre.messages_of(channel_id),
                self.channel(channel_id).live_messages == pre.channel(channel_id).live_messages,
                forall|c2: int|
                    0 <= c2 < pre.channels@.len() && c2 != channel_id as int
                        ==> self.channels@[c2] == pre.channels@[c2],
                self.events@ == pre.events@ + joined_after(s0, ds.take(k as int)).map_values(
                    |a: AccountId| Event::MemberJoined((MemberJoined { channel_id, account: a })),
                ),
            decreases ds.len() - k,
        {
            let ghost st0 = *self;
            let ghost dsk = ds.take(k as int);
            let ghost dsk1 = ds.take(k as int + 1);
            let d = decisions[k];
            let account = d.0;
            proof {
                assert(dsk1 =~= dsk.push(ds[k as int]));
                assert(dsk1.drop_last() =~= dsk);
                assert(dsk1.last() == ds[k as int]);
                lemma_batch_model_disjoint(s0, dsk);
            }
            let found = self.find_pending(channel_id, account);
            match found {
                None => {
                    not_found += 1;
                    proof {
                        assert(!st0.pending_senders(channel_id).contains(account));
                        assert(!remaining_after(s0, dsk).contains(account));
                        assert(remaining_after(s0, dsk1) == remaining_after(s0, dsk));
                        assert(joined_after(s0, dsk1) == joined_after(s0, dsk));
                        assert(rejected_after(s0, dsk1) == rejected_after(s0, dsk));
                        assert(not_found_after(s0, dsk1) == not_found_after(s0, dsk) + 1);
                        assert forall|i: int| 0 <= i < pre.requests@.len() implies settled_request(
                            pre,
                            channel_id,
                            s0,
                            dsk1,
                            i,
                        ) == settled_request(pre, channel_id, s0, dsk, i) by {}
                    }
                },
                Some(j) => {
                    let idx = self.channel_index(channel_id);
                    let rid = self.channels[idx].pending[j];
                    proof {
                        assert(st0.has_request(rid));
                    }
                    let n = self.requests.len();
                    assert(rid < n as u64);
                    let rid_us = rid as usize;
                    let approve = d.1;
                    proof {
                        assert(st0.pending_senders(channel_id).contains(account)) by {
                            assert(st0.has_pending_from(account, channel_id));
                        }
                        assert(remaining_after(s0, dsk).contains(account));
                        assert(!joined_after(s0, dsk).contains(account));
                        assert(!rejected_after(s0, dsk).contains(account));
                        assert(remaining_after(s0, dsk1) == remaining_after(s0, dsk).remove(
                            account,
                        ));
                        assert(!st0.has_member(account, channel_id)) by {
                            assert(st0.request(
                                st0.channels@[channel_id as int].pending@[j as int],
                            ).sender == account);
                        }
                        assert(!pre.has_member(account, channel_id));
                        assert(st0.request(rid).approval == Approval::Unset);
                        assert(st0.requests@[rid as int] == pre.requests@[rid as int]) by {
                            assert(settled_request(pre, channel_id, s0, dsk, rid as int)
                                == st0.requests@[rid as int]);
                            if pre.pending_ids(channel_id).contains(rid) && (joined_after(
                                s0,
                                dsk,
                            ).contains(pre.requests@[rid as int].sender) || rejected_after(
                                s0,
                                dsk,
                            ).contains(pre.requests@[rid as int].sender)) {
                                assert(st0.requests@[rid as int].approval != Approval::Unset);
                            }
                        }
                        assert(pre.requests@[rid as int].sender == account);
                        assert(pre.requests@[rid as int].approval == Approval::Unset);
                        assert(pre.pending_ids(channel_id).contains(rid)) by {
                            let p0 = st0.pending_ids(channel_id);
                            assert(p0[j as int] == rid);
                            assert(p0.contains(rid));
                            pre.pending_ids(channel_id).lemma_filter_contains_rev(
                                |rid2: RequestId| st0.requests@[rid2 as int].approval
                                    == Approval::Unset,
                                rid,
                            );
                        }
                    }
                    if approve {
                        self.requests[rid_us].approval = Approval::Approved;
                    } else {
                        self.requests[rid_us].approval = Approval::Rejected;
                    }
                    let _removed = self.channels[idx].pending.remove(j);
                    let ghost st1 = *self;
                    if approve {
                        proof {
                            assert(self.member_lists_wf() && self.index_lists_wf()
                                && self.indexes_consistent()) by {
                                lemma_membership_conjuncts_carry(st0, *self);
                            }
                            assert(!self.has_member(account, channel_id)) by {
                                assert(self.members_of(channel_id) == st0.members_of(channel_id));
                            }
                        }
                        self.add_member_entry(channel_id, account);
                        approved += 1;
                    } else {
                        rejected += 1;
                    }
                    proof {
                        let st2 = *self;
                        lemma_after_decision(
                            pre,
                            st0,
                            st1,
                            st2,
                            channel_id,
                            s0,
                            dsk,
                            ds[k as int],
                            rid,
                            j as int,
                        );
                    }
                },
            }
            k += 1;
            proof {
                assert(ds.take(k as int) == dsk1);
            }
        }
        proof {
            assert(ds.take(ds.len() as int) =~= ds);
        }
        let summary = ApprovalSummary {
            approved_count: approved,
            rejected_count: rejected,
            not_found_count: not_found,
        };
        let ghost prepush = *self;
        self.events.push(
            Event::ApprovalSubmitted(
                ApprovalSubmitted {
                    channel_id,
                    approved_count: approved,
                    rejected_count: rejected,
                    not_found_count: not_found,
                },
            ),
        );
        proof {
            let fin = *self;
            assert forall|a: AccountId, c2: ChannelId|
                #![trigger fin.has_member(a, c2)]
                #![trigger fin.in_member_index(a, c2)]
                fin.has_member(a, c2) <==> fin.in_member_index(a, c2) by {
                assert(fin.member_channels(a) == prepush.member_channels(a));
                assert(fin.has_member(a, c2) == prepush.has_member(a, c2));
                assert(prepush.has_member(a, c2) <==> prepush.in_member_index(a, c2));
            }
            assert forall|a: AccountId|
                fin.member_channels(a) == (if joined_after(s0, ds).contains(a) {
                    pre.member_channels(a).push(channel_id)
                } else {
                    pre.member_channels(a)
                }) by {
                assert(fin.member_channels(a) == prepush.member_channels(a));
            }
            assert forall|a: AccountId|
                fin.has_member(a, channel_id) <==> (pre.has_member(a, channel_id) || joined_after(
                    s0,
                    ds,
                ).contains(a)) by {
                assert(fin.has_member(a, channel_id) == prepush.has_member(a, channel_id));
            }
            assert(fin.pending_senders(channel_id) =~= prepush.pending_senders(channel_id)) by {
                assert forall|a: AccountId|
                    fin.has_pending_from(a, channel_id) == prepush.has_pending_from(
                        a,
                        channel_id,
                    ) by {
                    assert(fin.pending_ids(channel_id) == prepush.pending_ids(channel_id));
                    assert(fin.requests@ == prepush.requests@);
                }
            }
        }
        proof {
            let f = |a: AccountId| Event::MemberJoined(
                (MemberJoined { channel_id, account: a }),
            );
            assert(self.events@ =~= pre.events@ + joined_after(s0, ds).map_values(f).push(
                Event::ApprovalSubmitted(
                    (ApprovalSubmitted {
                        channel_id,
                        approved_count: approved,
                        rejected_count: rejected,
                        not_found_count: not_found,
                    }),
                ),
            ));
        }
        Ok(summary)
    }

    /// How many join requests are pending for a channel; 0 for an unknown
    /// one.
    pub fn pending_requests_count(&self, channel_id: ChannelId) -> (r: usize)
        ensures
            r as int == (if self.has_channel(channel_id) {
                self.pending_ids(channel_id).len() as int
            } else {
                0
            }),
    {
        if channel_id < self.channels.len() as u64 {
            let idx = self.channel_index(channel_id);
            self.channels[idx].pending.len()
        } else {
            0
        }
    }

    /// One page of a channel's pending requests, in request order; an
    /// unknown channel yields an empty page with total 0.
    pub fn list_pending_requests(&self, channel_id: ChannelId, from: usize, per_page: usize) -> (page:
        Pagination<RequestRecord>)
        requires
            self.wf(),
        ensures
            page.from == from,
            page.per_page == clamped_page_size(per_page as int),
            page.total as int == (if self.has_channel(channel_id) {
                self.pending_ids(channel_id).len() as int
            } else {
                0
            }),
            page.has_next_page == forward_has_next(page.total as int, from as int, per_page as int),
            page.items@.len() <= page.per_page,
            self.has_channel(channel_id) ==> {
                &&& page.items@.len() == crate::pagination::forward_end(
                    page.total as int,
                    from as int,
                    per_page as int,
                ) - forward_start(page.total as int, from as int)
                &&& forall|i: int|
                    0 <= i < page.items@.len() ==> #[trigger] page.items@[i]
                        == self.pending_record(
                        channel_id,
                        forward_start(page.total as int, from as int) + i,
                    )
            },
            !self.has_channel(channel_id) ==> page.items@ =~= Seq::<RequestRecord>::empty(),
    {
        if channel_id < self.channels.len() as u64 {
            let idx = self.channel_index(channel_id);
            let pending = &self.channels[idx].pending;
            let w = forward_window(pending.len(), from, per_page);
            let mut items: Vec<RequestRecord> = Vec::new();
            let mut j = w.start;
            while j < w.end
                invariant
                    self.wf(),
                    self.has_channel(channel_id),
                    pending == &self.channels@[channel_id as int].pending,
                    w.start <= j <= w.end,
                    w.end <= pending@.len(),
                    items@.len() == j - w.start,
                    forall|k: int|
                        0 <= k < items@.len() ==> #[trigger] items@[k] == self.pending_record(
                            channel_id,
                            w.start + k,
                        ),
                decreases w.end - j,
            {
                let rid = pending[j];
                assert(self.has_request(rid));
                let n = self.requests.len();
                assert(rid < n as u64);
                items.push(RequestRecord { request_id: rid, request: self.requests[rid as usize] });
                j += 1;
            }
            Pagination {
                items,
                from,
                per_page: w.per_page,
                has_next_page: w.has_next_page,
                total: pending.len(),
            }
        } else {
            let w = forward_window(0, from, per_page);
            Pagination {
                items: Vec::new(),
                from,
                per_page: w.per_page,
                has_next_page: w.has_next_page,
                total: 0,
            }
        }
    }
}

} // verus!

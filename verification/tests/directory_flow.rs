//! Channel registry, membership and request-workflow behaviour, driven
//! through the public operations only.

use squid_chat::directory::Directory;
use squid_chat::errors::{Reason, SquidChatError};
use squid_chat::events::Event;

/// Files a join request and has the owner approve it.
fn join(d: &mut Directory, owner: u64, channel: u64, account: u64) {
    d.send_request(account, 7, channel).unwrap();
    let summary = d.approve_request(owner, channel, vec![(account, true)]).unwrap();
    assert_eq!(summary.approved_count, 1);
}

#[test]
fn creator_is_sole_initial_member() {
    let mut d = Directory::new();
    let id = d.new_channel(1, "general".to_string(), None).unwrap();
    assert_eq!(id, 0);
    assert_eq!(d.get_channel_members(id), vec![1]);
    assert_eq!(d.get_member_channels(1), vec![0]);
    let info = d.get_channel_info(id).unwrap();
    assert_eq!(info.owner, 1);
    assert_eq!(info.name, "general".to_string());
    assert_eq!(info.image, None);
}

#[test]
fn channel_ids_are_monotonic_and_never_reused() {
    let mut d = Directory::new();
    assert_eq!(d.new_channel(1, "a".to_string(), None).unwrap(), 0);
    assert_eq!(d.new_channel(2, "b".to_string(), None).unwrap(), 1);
    assert_eq!(d.new_channel(1, "c".to_string(), None).unwrap(), 2);
}

#[test]
fn update_channel_is_owner_only_and_keeps_owner() {
    let mut d = Directory::new();
    let id = d.new_channel(1, "old".to_string(), None).unwrap();
    assert_eq!(
        d.update_channel(2, id, "x".to_string(), None),
        Err(SquidChatError::Unauthorized)
    );
    d.update_channel(1, id, "new".to_string(), Some("img".to_string())).unwrap();
    let info = d.get_channel_info(id).unwrap();
    assert_eq!(info.owner, 1);
    assert_eq!(info.name, "new".to_string());
    assert_eq!(info.image, Some("img".to_string()));
    assert_eq!(
        d.update_channel(1, 9, "x".to_string(), None),
        Err(SquidChatError::Custom(Reason::ChannelNotFound))
    );
}

#[test]
fn unknown_channel_is_not_retrievable() {
    let d = Directory::new();
    assert_eq!(d.get_channel_info(0), None);
    assert_eq!(d.get_channel_members(0), Vec::<u64>::new());
}

#[test]
fn membership_indexes_agree_in_both_directions() {
    let mut d = Directory::new();
    let c0 = d.new_channel(1, "a".to_string(), None).unwrap();
    let c1 = d.new_channel(2, "b".to_string(), None).unwrap();
    join(&mut d, 1, c0, 3);
    join(&mut d, 2, c1, 3);
    assert_eq!(d.get_member_channels(3), vec![c0, c1]);
    assert!(d.is_member(3, c0) && d.is_member(3, c1));
    d.leave_channel(3, c0).unwrap();
    assert_eq!(d.get_member_channels(3), vec![c1]);
    assert_eq!(d.get_channel_members(c0), vec![1]);
    assert!(!d.is_member(3, c0) && d.is_member(3, c1));
}

#[test]
fn send_request_rejected_for_member() {
    let mut d = Directory::new();
    let id = d.new_channel(1, "a".to_string(), None).unwrap();
    assert_eq!(
        d.send_request(1, 5, id),
        Err(SquidChatError::Custom(Reason::AlreadyMember))
    );
    join(&mut d, 1, id, 2);
    assert_eq!(
        d.send_request(2, 6, id),
        Err(SquidChatError::Custom(Reason::AlreadyMember))
    );
}

#[test]
fn second_pending_request_rejected_as_duplicate() {
    let mut d = Directory::new();
    let id = d.new_channel(1, "a".to_string(), None).unwrap();
    d.send_request(2, 5, id).unwrap();
    assert_eq!(
        d.send_request(2, 6, id),
        Err(SquidChatError::Custom(Reason::DuplicatePending))
    );
}

#[test]
fn settled_request_does_not_block_a_fresh_one() {
    let mut d = Directory::new();
    let id = d.new_channel(1, "a".to_string(), None).unwrap();
    let r0 = d.send_request(2, 5, id).unwrap();
    d.approve_request(1, id, vec![(2, false)]).unwrap();
    let r1 = d.send_request(2, 6, id).unwrap();
    assert_ne!(r0, r1);
    assert_eq!(r1, r0 + 1);
}

#[test]
fn approve_batch_tally_and_membership() {
    let mut d = Directory::new();
    let id = d.new_channel(1, "a".to_string(), None).unwrap();
    d.send_request(2, 5, id).unwrap();
    d.send_request(4, 6, id).unwrap();
    let summary = d
        .approve_request(1, id, vec![(2, true), (3, false), (4, true)])
        .unwrap();
    assert_eq!(summary.approved_count, 2);
    assert_eq!(summary.rejected_count, 0);
    assert_eq!(summary.not_found_count, 1);
    assert!(d.is_member(2, id));
    assert!(!d.is_member(3, id));
    assert!(d.is_member(4, id));
    assert_eq!(d.pending_requests_count(id), 0);
    assert_eq!(d.list_pending_requests(id, 0, 10).items.len(), 0);
}

#[test]
fn approve_batch_rejection_settles_without_membership() {
    let mut d = Directory::new();
    let id = d.new_channel(1, "a".to_string(), None).unwrap();
    d.send_request(2, 5, id).unwrap();
    let summary = d.approve_request(1, id, vec![(2, false)]).unwrap();
    assert_eq!(summary.approved_count, 0);
    assert_eq!(summary.rejected_count, 1);
    assert_eq!(summary.not_found_count, 0);
    assert!(!d.is_member(2, id));
    assert_eq!(d.pending_requests_count(id), 0);
}

#[test]
fn approve_batch_duplicate_decision_counts_not_found() {
    let mut d = Directory::new();
    let id = d.new_channel(1, "a".to_string(), None).unwrap();
    d.send_request(2, 5, id).unwrap();
    let summary = d.approve_request(1, id, vec![(2, true), (2, true)]).unwrap();
    assert_eq!(summary.approved_count, 1);
    assert_eq!(summary.not_found_count, 1);
}

#[test]
fn approve_batch_is_owner_only() {
    let mut d = Directory::new();
    let id = d.new_channel(1, "a".to_string(), None).unwrap();
    d.send_request(2, 5, id).unwrap();
    assert_eq!(
        d.approve_request(2, id, vec![(2, true)]),
        Err(SquidChatError::Unauthorized)
    );
    assert_eq!(
        d.approve_request(1, 9, vec![(2, true)]),
        Err(SquidChatError::Custom(Reason::ChannelNotFound))
    );
}

#[test]
fn pending_requests_are_listed_in_request_order() {
    let mut d = Directory::new();
    let id = d.new_channel(1, "a".to_string(), None).unwrap();
    let r2 = d.send_request(2, 5, id).unwrap();
    let r3 = d.send_request(3, 6, id).unwrap();
    let page = d.list_pending_requests(id, 0, 10);
    assert_eq!(page.total, 2);
    assert_eq!(page.items.len(), 2);
    assert_eq!(page.items[0].request_id, r2);
    assert_eq!(page.items[0].request.sender, 2);
    assert_eq!(page.items[0].request.requested_at, 5);
    assert_eq!(page.items[1].request_id, r3);
    assert_eq!(page.items[1].request.sender, 3);
}

#[test]
fn leave_channel_needs_no_owner_but_kick_does() {
    let mut d = Directory::new();
    let id = d.new_channel(1, "a".to_string(), None).unwrap();
    join(&mut d, 1, id, 2);
    join(&mut d, 1, id, 3);
    assert_eq!(
        d.leave_channel(4, id),
        Err(SquidChatError::Custom(Reason::NotMember))
    );
    d.leave_channel(2, id).unwrap();
    assert!(!d.is_member(2, id));
    assert_eq!(
        d.kick_member(2, id, 3),
        Err(SquidChatError::Unauthorized)
    );
    d.kick_member(1, id, 3).unwrap();
    assert!(!d.is_member(3, id));
    assert_eq!(
        d.kick_member(1, id, 3),
        Err(SquidChatError::Custom(Reason::NotMember))
    );
    assert_eq!(
        d.leave_channel(1, 9),
        Err(SquidChatError::Custom(Reason::ChannelNotFound))
    );
}

#[test]
fn member_can_rejoin_after_leaving() {
    let mut d = Directory::new();
    let id = d.new_channel(1, "a".to_string(), None).unwrap();
    join(&mut d, 1, id, 2);
    d.leave_channel(2, id).unwrap();
    join(&mut d, 1, id, 2);
    assert!(d.is_member(2, id));
    assert_eq!(d.get_channel_members(id), vec![1, 2]);
}

#[test]
fn every_mutation_emits_its_events() {
    let mut d = Directory::new();
    let id = d.new_channel(1, "a".to_string(), None).unwrap();
    let rid = d.send_request(2, 5, id).unwrap();
    d.approve_request(1, id, vec![(2, true)]).unwrap();
    d.leave_channel(2, id).unwrap();
    let ev = &d.events;
    assert_eq!(ev.len(), 6);
    match &ev[0] {
        Event::ChannelCreated(e) => {
            assert_eq!(e.channel_id, id);
            assert_eq!(e.owner, 1);
        }
        other => panic!("unexpected event {:?}", other),
    }
    assert!(matches!(&ev[1], Event::MemberJoined(e) if e.account == 1));
    match &ev[2] {
        Event::RequestSent(e) => {
            assert_eq!(e.request_id, rid);
            assert_eq!(e.sender, 2);
        }
        other => panic!("unexpected event {:?}", other),
    }
    assert!(matches!(&ev[3], Event::MemberJoined(e) if e.account == 2));
    match &ev[4] {
        Event::ApprovalSubmitted(e) => {
            assert_eq!(e.approved_count, 1);
            assert_eq!(e.rejected_count, 0);
            assert_eq!(e.not_found_count, 0);
        }
        other => panic!("unexpected event {:?}", other),
    }
    assert!(matches!(&ev[5], Event::MemberLeft(e) if e.account == 2));
}

#[test]
fn request_for_unknown_channel_is_refused() {
    let mut d = Directory::new();
    assert_eq!(
        d.send_request(2, 5, 0),
        Err(SquidChatError::Custom(Reason::ChannelNotFound))
    );
    assert_eq!(
        d.kick_member(1, 0, 2),
        Err(SquidChatError::Custom(Reason::ChannelNotFound))
    );
}

#[test]
fn list_channels_pages_forward() {
    let mut d = Directory::new();
    for i in 0..3u64 {
        d.new_channel(i, format!("ch{}", i), None).unwrap();
    }
    let page = d.list_channels(0, 2);
    assert_eq!(page.total, 3);
    assert_eq!(page.items.len(), 2);
    assert!(page.has_next_page);
    assert_eq!(page.items[0].channel_id, 0);
    assert_eq!(page.items[1].channel_id, 1);
    assert_eq!(page.items[1].channel.name, "ch1".to_string());
    let page = d.list_channels(2, 2);
    assert_eq!(page.items.len(), 1);
    assert!(!page.has_next_page);
    assert_eq!(page.items[0].channel_id, 2);
}

#[test]
fn list_members_pages_forward() {
    let mut d = Directory::new();
    let id = d.new_channel(1, "a".to_string(), None).unwrap();
    join(&mut d, 1, id, 2);
    join(&mut d, 1, id, 3);
    let page = d.list_members(id, 0, 2);
    assert_eq!(page.total, 3);
    assert_eq!(page.items, vec![1, 2]);
    assert!(page.has_next_page);
    let page = d.list_members(id, 2, 2);
    assert_eq!(page.items, vec![3]);
    assert!(!page.has_next_page);
    let empty = d.list_members(9, 0, 2);
    assert_eq!(empty.total, 0);
    assert_eq!(empty.items.len(), 0);
    assert!(!empty.has_next_page);
}

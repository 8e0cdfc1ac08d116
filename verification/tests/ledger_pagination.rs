//! Message-ledger behaviour and the pagination engine: reverse-chronological
//! listing, tombstone handling, authorization, and page-size clamping.

use squid_chat::directory::Directory;
use squid_chat::errors::{Reason, SquidChatError};
use squid_chat::pagination::{forward_window, reverse_window, MAX_PAGE_SIZE};

/// Files a join request and has the owner approve it.
fn approve_join(d: &mut Directory, owner: u64, channel: u64, account: u64) {
    d.send_request(account, 7, channel).unwrap();
    d.approve_request(owner, channel, vec![(account, true)]).unwrap();
}

#[test]
fn send_message_needs_membership() {
    let mut d = Directory::new();
    let id = d.new_channel(1, "a".to_string(), None).unwrap();
    assert_eq!(
        d.send_message(2, 10, id, "hi".to_string()),
        Err(SquidChatError::Custom(Reason::NotMember))
    );
    assert_eq!(
        d.send_message(1, 10, 9, "hi".to_string()),
        Err(SquidChatError::Custom(Reason::ChannelNotFound))
    );
    assert_eq!(d.send_message(1, 10, id, "hi".to_string()).unwrap(), 0);
}

#[test]
fn message_ids_count_up_per_channel() {
    let mut d = Directory::new();
    let c0 = d.new_channel(1, "a".to_string(), None).unwrap();
    let c1 = d.new_channel(1, "b".to_string(), None).unwrap();
    assert_eq!(d.send_message(1, 10, c0, "x".to_string()).unwrap(), 0);
    assert_eq!(d.send_message(1, 11, c0, "y".to_string()).unwrap(), 1);
    assert_eq!(d.send_message(1, 12, c1, "z".to_string()).unwrap(), 0);
    assert_eq!(d.message_nonce(c0), 2);
    assert_eq!(d.message_nonce(c1), 1);
    assert_eq!(d.message_nonce(7), 0);
}

#[test]
fn list_messages_most_recent_first() {
    let mut d = Directory::new();
    let id = d.new_channel(1, "a".to_string(), None).unwrap();
    d.send_message(1, 10, id, "first".to_string()).unwrap();
    d.send_message(1, 11, id, "second".to_string()).unwrap();
    d.send_message(1, 12, id, "third".to_string()).unwrap();
    let page = d.list_messages(id, 0, 10);
    assert_eq!(page.total, 3);
    assert!(!page.has_next_page);
    assert_eq!(page.items.len(), 3);
    assert_eq!(page.items[0].message_id, 2);
    assert_eq!(page.items[0].message.content, "third".to_string());
    assert_eq!(page.items[1].message_id, 1);
    assert_eq!(page.items[2].message_id, 0);
    assert_eq!(page.items[2].message.send_at, 10);
}

#[test]
fn deleting_newest_message_shrinks_total_and_listing() {
    let mut d = Directory::new();
    let id = d.new_channel(1, "a".to_string(), None).unwrap();
    d.send_message(1, 10, id, "first".to_string()).unwrap();
    d.send_message(1, 11, id, "second".to_string()).unwrap();
    d.send_message(1, 12, id, "third".to_string()).unwrap();
    d.remove_message(1, id, 2).unwrap();
    let page = d.list_messages(id, 0, 10);
    assert_eq!(page.total, 2);
    assert!(!page.has_next_page);
    assert_eq!(page.items.len(), 2);
    assert_eq!(page.items[0].message_id, 1);
    assert_eq!(page.items[1].message_id, 0);
}

#[test]
fn deleted_ids_are_skipped_inside_the_window_and_never_reused() {
    let mut d = Directory::new();
    let id = d.new_channel(1, "a".to_string(), None).unwrap();
    d.send_message(1, 10, id, "a".to_string()).unwrap();
    d.send_message(1, 11, id, "b".to_string()).unwrap();
    d.send_message(1, 12, id, "c".to_string()).unwrap();
    d.remove_message(1, id, 1).unwrap();
    assert_eq!(d.message_nonce(id), 3);
    let page = d.list_messages(id, 0, 10);
    assert_eq!(page.total, 2);
    assert_eq!(page.items.len(), 2);
    assert_eq!(page.items[0].message_id, 2);
    assert_eq!(page.items[1].message_id, 0);
    assert_eq!(d.send_message(1, 13, id, "d".to_string()).unwrap(), 3);
}

#[test]
fn list_messages_windows_page_backwards() {
    let mut d = Directory::new();
    let id = d.new_channel(1, "a".to_string(), None).unwrap();
    for t in 0..5u64 {
        d.send_message(1, t, id, format!("m{}", t)).unwrap();
    }
    let page = d.list_messages(id, 0, 2);
    assert_eq!(page.items.len(), 2);
    assert_eq!(page.items[0].message_id, 4);
    assert_eq!(page.items[1].message_id, 3);
    assert!(page.has_next_page);
    let page = d.list_messages(id, 2, 2);
    assert_eq!(page.items.len(), 2);
    assert_eq!(page.items[0].message_id, 2);
    assert_eq!(page.items[1].message_id, 1);
    assert!(page.has_next_page);
    let page = d.list_messages(id, 4, 2);
    assert_eq!(page.items.len(), 1);
    assert_eq!(page.items[0].message_id, 0);
    assert!(!page.has_next_page);
    let empty = d.list_messages(9, 0, 2);
    assert_eq!(empty.total, 0);
    assert_eq!(empty.items.len(), 0);
}

#[test]
fn remove_message_authorization_paths() {
    let mut d = Directory::new();
    let id = d.new_channel(1, "a".to_string(), None).unwrap();
    approve_join(&mut d, 1, id, 2);
    approve_join(&mut d, 1, id, 3);
    let mid = d.send_message(2, 10, id, "hi".to_string()).unwrap();
    assert_eq!(d.remove_message(3, id, mid), Err(SquidChatError::Unauthorized));
    assert_eq!(
        d.remove_message(4, id, mid),
        Err(SquidChatError::Custom(Reason::NotMember))
    );
    d.remove_message(1, id, mid).unwrap();
    assert_eq!(
        d.remove_message(1, id, mid),
        Err(SquidChatError::Custom(Reason::MessageNotFound))
    );
    let mid2 = d.send_message(3, 11, id, "mine".to_string()).unwrap();
    d.remove_message(3, id, mid2).unwrap();
    assert_eq!(
        d.remove_message(1, id, 9),
        Err(SquidChatError::Custom(Reason::MessageNotFound))
    );
    assert_eq!(
        d.remove_message(1, 9, 0),
        Err(SquidChatError::Custom(Reason::ChannelNotFound))
    );
}

#[test]
fn per_page_is_clamped_to_fifty() {
    let mut d = Directory::new();
    let id = d.new_channel(1, "a".to_string(), None).unwrap();
    for t in 0..60u64 {
        d.send_message(1, t, id, format!("m{}", t)).unwrap();
    }
    let page = d.list_messages(id, 0, 1000);
    assert_eq!(page.per_page, 50);
    assert_eq!(page.items.len(), 50);
    assert_eq!(page.items[0].message_id, 59);
    assert_eq!(page.items[49].message_id, 10);
    assert!(page.has_next_page);
    let chans = d.list_channels(0, 1000);
    assert_eq!(chans.per_page, 50);
}

#[test]
fn window_engine_clamps_and_bounds() {
    let w = forward_window(10, 0, 1000);
    assert_eq!(w.per_page, MAX_PAGE_SIZE);
    assert_eq!((w.start, w.end), (0, 10));
    assert!(!w.has_next_page);
    let w = forward_window(100, 20, 30);
    assert_eq!((w.start, w.end), (20, 50));
    assert!(w.has_next_page);
    let w = forward_window(5, 9, 3);
    assert_eq!((w.start, w.end), (5, 5));
    assert!(!w.has_next_page);
    let w = reverse_window(100, 0, 1000);
    assert_eq!(w.per_page, 50);
    assert_eq!((w.start, w.end), (50, 100));
    assert!(w.has_next_page);
    let w = reverse_window(3, 0, 10);
    assert_eq!((w.start, w.end), (0, 3));
    assert!(!w.has_next_page);
    let w = reverse_window(3, 5, 10);
    assert_eq!((w.start, w.end), (0, 0));
    assert!(!w.has_next_page);
}

#[test]
fn has_next_page_follows_the_clamped_window() {
    let w = forward_window(60, 5, 1000);
    assert_eq!(w.per_page, 50);
    assert_eq!((w.start, w.end), (5, 55));
    assert!(w.has_next_page);
    let w = forward_window(60, 20, 1000);
    assert_eq!((w.start, w.end), (20, 60));
    assert!(!w.has_next_page);
}

#[test]
fn error_precedence_on_the_ledger() {
    let mut d = Directory::new();
    let id = d.new_channel(1, "a".to_string(), None).unwrap();
    assert_eq!(
        d.remove_message(2, id, 0),
        Err(SquidChatError::Custom(Reason::NotMember))
    );
    assert_eq!(
        d.remove_message(2, 9, 0),
        Err(SquidChatError::Custom(Reason::ChannelNotFound))
    );
}

#[test]
fn created_entities_are_retrievable_until_removed() {
    let mut d = Directory::new();
    let id = d.new_channel(1, "a".to_string(), None).unwrap();
    assert!(d.get_channel_info(id).is_some());
    let rid = d.send_request(2, 5, id).unwrap();
    let pending = d.list_pending_requests(id, 0, 10);
    assert!(pending.items.iter().any(|r| r.request_id == rid));
    let mid = d.send_message(1, 10, id, "hello".to_string()).unwrap();
    let page = d.list_messages(id, 0, 10);
    assert!(page.items.iter().any(|m| m.message_id == mid));
    assert_eq!(page.items[0].message.content, "hello".to_string());
    d.approve_request(1, id, vec![(2, true)]).unwrap();
    assert!(d.list_pending_requests(id, 0, 10).items.is_empty());
    d.remove_message(1, id, mid).unwrap();
    assert!(d.list_messages(id, 0, 10).items.iter().all(|m| m.message_id != mid));
}

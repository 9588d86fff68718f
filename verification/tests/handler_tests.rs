use dup_checker::handler::{
    truncate, plan_update, Action, ForwardHeader, NewMessageEvent, PeerInfo, UpdateEvent,
};
use dup_checker::tracker::{DuplicateTracker, ForwardLocation, OriginalMessageId};

fn forwarded_message(chat_id: i64, message_id: i32, peer_id: i64, post: i32) -> UpdateEvent {
    UpdateEvent::NewMessage(NewMessageEvent {
        chat_id,
        message_id,
        forward: Some(ForwardHeader { from_peer_id: Some(peer_id), channel_post: Some(post) }),
        peer: Some(PeerInfo { channel: false, name: String::from("group") }),
    })
}

#[test]
fn plain_message_yields_no_action() {
    let mut t = DuplicateTracker::default();
    let event = UpdateEvent::NewMessage(NewMessageEvent {
        chat_id: 10,
        message_id: 1,
        forward: None,
        peer: None,
    });
    assert!(matches!(plan_update(&event, &mut t), Action::Nothing));
    assert_eq!(t.originals_count(), 0);
}

#[test]
fn incomplete_forward_header_is_not_trackable() {
    let mut t = DuplicateTracker::default();
    let event = UpdateEvent::NewMessage(NewMessageEvent {
        chat_id: 10,
        message_id: 1,
        forward: Some(ForwardHeader { from_peer_id: Some(1), channel_post: None }),
        peer: Some(PeerInfo { channel: true, name: String::from("channel") }),
    });
    assert!(matches!(plan_update(&event, &mut t), Action::Nothing));
    assert_eq!(t.originals_count(), 0);
}

#[test]
fn forwarded_message_registers_and_caches_peer() {
    let mut t = DuplicateTracker::default();
    let action = plan_update(&forwarded_message(10, 300, 1, 100), &mut t);
    match action {
        Action::CachePeer { chat_id, channel, name } => {
            assert_eq!(chat_id, 10);
            assert!(!channel);
            assert_eq!(name, "group");
        },
        _ => panic!("expected a cache-peer action"),
    }
    let o = OriginalMessageId { peer_id: 1, message_id: 100 };
    assert_eq!(
        t.lookup_forward(&ForwardLocation { chat_id: 10, message_id: 300 }),
        Some(o)
    );
}

#[test]
fn read_event_plans_propagation_to_other_copies() {
    let mut t = DuplicateTracker::default();
    // one original, forwarded into chat 10 and chat 20
    plan_update(&forwarded_message(10, 300, 1, 100), &mut t);
    plan_update(&forwarded_message(20, 400, 1, 100), &mut t);

    // the user reads chat 10 up to message 300
    let action = plan_update(&UpdateEvent::ReadHistory { chat_id: 10, max_id: 300 }, &mut t);
    match action {
        Action::MarkForwards { forwards } => {
            // only the copy in chat 20 is left to mark
            assert_eq!(forwards, vec![ForwardLocation { chat_id: 20, message_id: 400 }]);
        },
        _ => panic!("expected a mark-forwards action"),
    }
    assert!(t.is_original_read(&OriginalMessageId { peer_id: 1, message_id: 100 }));

    // a second read of the same range finds nothing new
    let again = plan_update(&UpdateEvent::ReadHistory { chat_id: 10, max_id: 300 }, &mut t);
    assert!(matches!(again, Action::Nothing));
}

#[test]
fn read_event_plans_each_remaining_copy_once() {
    let mut t = DuplicateTracker::default();
    // one original with two copies in chat 10 and one in chat 20
    plan_update(&forwarded_message(10, 300, 1, 100), &mut t);
    plan_update(&forwarded_message(10, 301, 1, 100), &mut t);
    plan_update(&forwarded_message(20, 400, 1, 100), &mut t);

    // reading chat 10 covers both local copies; the copy in chat 20 is
    // planned exactly once, not once per local copy
    let action = plan_update(&UpdateEvent::ReadHistory { chat_id: 10, max_id: 301 }, &mut t);
    match action {
        Action::MarkForwards { forwards } => {
            assert_eq!(forwards, vec![ForwardLocation { chat_id: 20, message_id: 400 }]);
        },
        _ => panic!("expected a mark-forwards action"),
    }
}

#[test]
fn read_event_with_no_tracked_forwards_is_quiet() {
    let mut t = DuplicateTracker::default();
    let action = plan_update(&UpdateEvent::ReadHistory { chat_id: 5, max_id: 50 }, &mut t);
    assert!(matches!(action, Action::Nothing));
}

#[test]
fn read_event_covering_every_copy_plans_nothing() {
    let mut t = DuplicateTracker::default();
    // both copies live in the same chat, both below the high-water mark
    plan_update(&forwarded_message(10, 300, 1, 100), &mut t);
    plan_update(&forwarded_message(10, 301, 1, 100), &mut t);

    let action = plan_update(&UpdateEvent::ReadHistory { chat_id: 10, max_id: 301 }, &mut t);
    assert!(matches!(action, Action::Nothing));
    assert!(t.is_original_read(&OriginalMessageId { peer_id: 1, message_id: 100 }));
}

#[test]
fn other_events_are_ignored() {
    let mut t = DuplicateTracker::default();
    assert!(matches!(plan_update(&UpdateEvent::Other, &mut t), Action::Nothing));
}

#[test]
fn truncate_keeps_short_strings() {
    assert_eq!(truncate("hello", 10), "hello");
    assert_eq!(truncate("", 0), "");
}

#[test]
fn truncate_cuts_by_characters() {
    assert_eq!(truncate("hello world", 5), "hello...");
    assert_eq!(truncate("héllo wörld", 3), "hél...");
}

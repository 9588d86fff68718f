use dup_checker::marker::{MarkReadCall, PeerCache};
use dup_checker::tracker::ForwardLocation;

#[test]
fn first_cached_peer_wins() {
    let mut cache = PeerCache::new();
    cache.cache_peer(10, false, String::from("first"));
    cache.cache_peer(10, true, String::from("second"));
    assert_eq!(cache.get_chat_name(10), "first");
    assert_eq!(
        cache.plan_mark_read(10, 5),
        Some(MarkReadCall::Chat { chat_id: 10, max_id: 5 })
    );
}

#[test]
fn unknown_chat_has_sentinel_name_and_no_call() {
    let cache = PeerCache::new();
    assert_eq!(cache.get_chat_name(99), "unknown");
    assert_eq!(cache.plan_mark_read(99, 5), None);
}

#[test]
fn channel_peers_take_the_channel_call() {
    let mut cache = PeerCache::new();
    cache.cache_peer(7, true, String::from("news"));
    assert_eq!(
        cache.plan_mark_read(7, 123),
        Some(MarkReadCall::Channel { chat_id: 7, max_id: 123 })
    );
}

#[test]
fn batch_skips_forwards_without_cached_peer() {
    let mut cache = PeerCache::new();
    cache.cache_peer(10, false, String::from("group"));
    cache.cache_peer(20, true, String::from("channel"));

    let forwards = vec![
        ForwardLocation { chat_id: 10, message_id: 300 },
        ForwardLocation { chat_id: 99, message_id: 1 },
        ForwardLocation { chat_id: 20, message_id: 400 },
    ];
    let calls = cache.plan_mark_forwards(&forwards);
    assert_eq!(
        calls,
        vec![
            MarkReadCall::Chat { chat_id: 10, max_id: 300 },
            MarkReadCall::Channel { chat_id: 20, max_id: 400 },
        ]
    );
}

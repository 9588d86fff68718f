use dup_checker::snapshot::TrackerSnapshot;
use dup_checker::tracker::{DuplicateTracker, ForwardLocation, OriginalMessageId};

fn orig(peer: i64, msg: i32) -> OriginalMessageId {
    OriginalMessageId { peer_id: peer, message_id: msg }
}

fn fwd(chat: i64, msg: i32) -> ForwardLocation {
    ForwardLocation { chat_id: chat, message_id: msg }
}

#[test]
fn register_and_lookup() {
    let mut t = DuplicateTracker::default();
    let o = orig(1, 100);
    let f = fwd(2, 200);

    t.register_forward(o.clone(), f.clone());

    assert_eq!(t.lookup_forward(&f), Some(o));
    assert!(!t.is_original_read(&o));
}

#[test]
fn register_duplicate_forward_is_idempotent() {
    let mut t = DuplicateTracker::default();
    let o = orig(1, 100);
    let f = fwd(2, 200);

    t.register_forward(o.clone(), f.clone());
    t.register_forward(o.clone(), f.clone());

    // Should only have one entry, not two
    assert_eq!(t.forwards_of(&o).len(), 1);
}

#[test]
fn multiple_forwards_of_same_original() {
    let mut t = DuplicateTracker::default();
    let o = orig(1, 100);
    let f1 = fwd(2, 200);
    let f2 = fwd(3, 300);

    t.register_forward(o.clone(), f1.clone());
    t.register_forward(o.clone(), f2.clone());

    assert_eq!(t.forwards_of(&o).len(), 2);
    assert_eq!(t.lookup_forward(&f1), Some(o));
    assert_eq!(t.lookup_forward(&f2), Some(o));
}

#[test]
fn mark_original_read_returns_all_forwards() {
    let mut t = DuplicateTracker::default();
    let o = orig(1, 100);
    let f1 = fwd(2, 200);
    let f2 = fwd(3, 300);

    t.register_forward(o.clone(), f1.clone());
    t.register_forward(o.clone(), f2.clone());

    let result = t.mark_original_read(&o);
    assert_eq!(result.len(), 2);
    assert!(result.contains(&f1));
    assert!(result.contains(&f2));
    assert!(t.is_original_read(&o));
}

#[test]
fn find_read_originals_filters_by_chat_and_max_id() {
    let mut t = DuplicateTracker::default();
    let o1 = orig(1, 100);
    let o2 = orig(1, 101);

    // Both forwarded to chat 10, different message IDs
    t.register_forward(o1.clone(), fwd(10, 50));
    t.register_forward(o2.clone(), fwd(10, 60));

    // max_id=55 should only find the forward with msg_id=50
    let found = t.find_read_originals_in_chat(10, 55);
    assert_eq!(found.len(), 1);
    assert_eq!(found[0], o1);

    // max_id=60 should find both
    let found = t.find_read_originals_in_chat(10, 60);
    assert_eq!(found.len(), 2);
}

#[test]
fn find_read_originals_lists_each_original_once() {
    let mut t = DuplicateTracker::default();
    let o = orig(1, 100);

    // the same original forwarded twice into the same chat
    t.register_forward(o.clone(), fwd(10, 50));
    t.register_forward(o.clone(), fwd(10, 60));

    // both copies qualify, but the original is reported once
    let found = t.find_read_originals_in_chat(10, 60);
    assert_eq!(found, vec![o]);
}

#[test]
fn find_read_originals_excludes_already_read() {
    let mut t = DuplicateTracker::default();
    let o = orig(1, 100);
    t.register_forward(o.clone(), fwd(10, 50));

    // Mark as read first
    t.mark_original_read(&o);

    // Should not appear again
    let found = t.find_read_originals_in_chat(10, 50);
    assert!(found.is_empty());
}

#[test]
fn find_read_originals_empty_for_unknown_chat() {
    let t = DuplicateTracker::default();
    assert!(t.find_read_originals_in_chat(999, 100).is_empty());
}

#[test]
fn cleanup_removes_old_entries() {
    let mut t = DuplicateTracker::default();
    let o = orig(1, 100);
    let f = fwd(2, 200);
    t.register_forward(o.clone(), f.clone());

    // Backdate the first sighting to make it old
    t.set_first_seen(&o, 0);

    t.cleanup(1); // max_age_secs=1, anything older than ~now is removed

    assert!(t.originals_count() == 0);
    assert!(t.forward_index_count() == 0);
    assert!(t.read_count() == 0);
    assert!(t.first_seen_count() == 0);
    assert!(t.chat_count() == 0);
}

#[test]
fn cleanup_keeps_recent_entries() {
    let mut t = DuplicateTracker::default();
    let o = orig(1, 100);
    let f = fwd(2, 200);
    t.register_forward(o.clone(), f.clone());

    // Very long max age — nothing should be cleaned
    t.cleanup(999_999_999);

    assert_eq!(t.originals_count(), 1);
    assert_eq!(t.forward_index_count(), 1);
}

/// Simulates the discussion group scenario: a channel post forwarded to
/// two discussion groups. Reading the thread root in one group should
/// propagate to the other.
#[test]
fn discussion_group_read_propagation() {
    let mut t = DuplicateTracker::default();
    let o = orig(1, 100); // original channel post

    // Same post forwarded to two discussion groups as thread roots
    let f1 = fwd(10, 300); // discussion group A, thread root msg 300
    let f2 = fwd(20, 400); // discussion group B, thread root msg 400

    t.register_forward(o.clone(), f1.clone());
    t.register_forward(o.clone(), f2.clone());

    // User opens the thread in group A: we look up originals with
    // msg_id <= 300 in chat 10, which finds f1.
    let found = t.find_read_originals_in_chat(10, 300);
    assert_eq!(found.len(), 1);
    assert_eq!(found[0], o);

    // Mark original as read, get all forwards to propagate
    let all_fwds = t.mark_original_read(&o);
    assert_eq!(all_fwds.len(), 2);

    // Filter out the one the user already read (f1 in chat 10)
    let to_mark: Vec<_> = all_fwds
        .into_iter()
        .filter(|f| !(f.chat_id == 10 && f.message_id <= 300))
        .collect();
    assert_eq!(to_mark.len(), 1);
    assert_eq!(to_mark[0], f2);
}

#[test]
fn snapshot_round_trip_preserves_state() {
    let mut t = DuplicateTracker::default();
    let o = orig(1, 100);
    let f1 = fwd(2, 200);
    let f2 = fwd(3, 300);
    t.register_forward(o.clone(), f1.clone());
    t.register_forward(o.clone(), f2.clone());
    t.mark_original_read(&o);

    let snapshot = t.to_snapshot();
    let loaded = DuplicateTracker::from_snapshot(&snapshot);

    // Every table survived the round trip
    assert_eq!(loaded.originals_count(), 1);
    assert_eq!(loaded.first_seen_count(), 1);
    assert_eq!(loaded.forwards_of(&o), vec![f1.clone(), f2.clone()]);
    assert!(loaded.is_original_read(&o));
    assert_eq!(loaded.lookup_forward(&f1), Some(o));
    assert_eq!(loaded.lookup_forward(&f2), Some(o));
    // the chat index is rebuilt from the forward index on load
    assert!(loaded.chat_count() > 0);
}

#[test]
fn snapshot_missing_first_seen_defaults_to_empty() {
    // An older persisted schema may lack the aging table entirely; such
    // originals keep no sighting and are outside every age bound.
    let mut t = DuplicateTracker::default();
    let o = orig(7, 70);
    t.register_forward(o.clone(), fwd(8, 80));

    let mut snapshot = t.to_snapshot();
    snapshot.first_seen = Vec::new();

    let mut loaded = DuplicateTracker::from_snapshot(&snapshot);
    assert_eq!(loaded.first_seen_count(), 0);
    assert_eq!(loaded.originals_count(), 1);

    // even the widest cutoff leaves an unsighted original alone
    loaded.cleanup_before(u64::MAX);
    assert_eq!(loaded.originals_count(), 1);
    assert_eq!(loaded.lookup_forward(&fwd(8, 80)), Some(o));
}

#[test]
fn empty_snapshot_restores_empty_tracker() {
    let snapshot = TrackerSnapshot {
        originals: Vec::new(),
        forward_index: Vec::new(),
        read_originals: Vec::new(),
        first_seen: Vec::new(),
    };
    let t = DuplicateTracker::from_snapshot(&snapshot);
    assert_eq!(t.originals_count(), 0);
    assert_eq!(t.forward_index_count(), 0);
    assert_eq!(t.read_count(), 0);
    assert_eq!(t.first_seen_count(), 0);
    assert_eq!(t.chat_count(), 0);
}

#[test]
fn register_reports_whether_original_was_read() {
    let mut t = DuplicateTracker::default();
    let o = orig(1, 100);

    // a fresh original was not read
    assert!(!t.register_forward(o.clone(), fwd(2, 200)));

    // a duplicate arriving after its original was consumed is flagged
    t.mark_original_read(&o);
    assert!(t.register_forward(o.clone(), fwd(3, 300)));
}

#[test]
fn conflicting_registration_keeps_first_link() {
    let mut t = DuplicateTracker::default();
    let o1 = orig(1, 100);
    let o2 = orig(2, 200);
    let f = fwd(10, 50);

    t.register_forward(o1.clone(), f.clone());
    t.register_forward(o2.clone(), f.clone());

    // the forward keeps its first original, and the second original gains
    // no entry for it — the bijection between lists and links is intact
    assert_eq!(t.lookup_forward(&f), Some(o1));
    assert_eq!(t.forwards_of(&o1), vec![f.clone()]);
    assert!(t.forwards_of(&o2).is_empty());
    assert_eq!(t.find_read_originals_in_chat(10, 50), vec![o1]);
}

#[test]
fn cleanup_before_purges_exactly_the_aged() {
    let mut t = DuplicateTracker::default();
    let old_o = orig(1, 1);
    let new_o = orig(2, 2);
    t.register_forward(old_o.clone(), fwd(10, 11));
    t.register_forward(new_o.clone(), fwd(10, 22));
    t.set_first_seen(&old_o, 100);
    t.set_first_seen(&new_o, 200);

    t.cleanup_before(150);

    assert_eq!(t.originals_count(), 1);
    assert_eq!(t.lookup_forward(&fwd(10, 11)), None);
    assert_eq!(t.lookup_forward(&fwd(10, 22)), Some(new_o));
    // the shared chat keeps its entry for the survivor
    assert_eq!(t.find_read_originals_in_chat(10, 30).len(), 1);
}

#[test]
fn mark_read_of_unknown_original_returns_nothing() {
    let mut t = DuplicateTracker::default();
    let o = orig(9, 9);
    let result = t.mark_original_read(&o);
    assert!(result.is_empty());
    assert!(t.is_original_read(&o));
}

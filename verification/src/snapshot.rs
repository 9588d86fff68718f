//! The durable form of the index.
//!
//! A [`TrackerSnapshot`] holds the four persisted tables as plain pair
//! vectors: the forward lists, the inverse index, the read originals and the
//! first sightings. The chat index is never part of it — it is pure cache
//! and is rebuilt on restore. Encoding the snapshot into bytes and moving
//! it to and from disk is the caller's business; this module pins down what
//! a snapshot means and when it restores exactly.

use vstd::prelude::*;

use crate::assoc::{assoc_map, unique_keys};
use crate::tracker::{ForwardLocation, OriginalMessageId, map_originals};

verus! {

/// The persisted state of a [`crate::tracker::DuplicateTracker`].
pub struct TrackerSnapshot {
    /// original -> all known forwards, in registration order
    pub originals: Vec<(OriginalMessageId, Vec<ForwardLocation>)>,
    /// forward location -> its original, in global registration order
    pub forward_index: Vec<(ForwardLocation, OriginalMessageId)>,
    /// originals the user has read
    pub read_originals: Vec<OriginalMessageId>,
    /// when each original was first seen (seconds since epoch)
    pub first_seen: Vec<(OriginalMessageId, u64)>,
}

/// The forward-list map a snapshot denotes.
pub open spec fn snapshot_originals(
    s: &TrackerSnapshot,
) -> Map<OriginalMessageId, Seq<ForwardLocation>> {
    assoc_map(map_originals(s.originals@))
}

/// The inverse index a snapshot denotes.
pub open spec fn snapshot_forward_index(
    s: &TrackerSnapshot,
) -> Map<ForwardLocation, OriginalMessageId> {
    assoc_map(s.forward_index@)
}

/// The read set a snapshot denotes.
pub open spec fn snapshot_read(s: &TrackerSnapshot) -> Set<OriginalMessageId> {
    s.read_originals@.to_set()
}

/// The aging table a snapshot denotes.
pub open spec fn snapshot_first_seen(s: &TrackerSnapshot) -> Map<OriginalMessageId, u64> {
    assoc_map(s.first_seen@)
}

/// An internally consistent snapshot: distinct keys everywhere,
/// duplicate-free lists, and the two persisted tables in bijection. Every
/// snapshot taken of a well-formed tracker is consistent, and a consistent
/// snapshot restores exactly.
pub open spec fn snapshot_ok(s: &TrackerSnapshot) -> bool {
    &&& unique_keys(s.originals@)
    &&& unique_keys(s.forward_index@)
    &&& unique_keys(s.first_seen@)
    &&& forall|i: int, j: int| 0 <= i < j < s.read_originals@.len()
            ==> s.read_originals@[i] != s.read_originals@[j]
    &&& forall|i: int, a: int, b: int|
            0 <= i < s.originals@.len() && 0 <= a < b < s.originals@[i].1@.len()
            ==> (#[trigger] s.originals@[i].1@[a]) != (#[trigger] s.originals@[i].1@[b])
    &&& forall|o: OriginalMessageId, f: ForwardLocation|
            snapshot_originals(s).contains_key(o) && #[trigger] snapshot_originals(s)[o].contains(
                f,
            ) ==> snapshot_forward_index(s).contains_key(f) && snapshot_forward_index(s)[f] == o
    &&& forall|f: ForwardLocation| #[trigger] snapshot_forward_index(s).contains_key(f)
            ==> snapshot_originals(s).contains_key(snapshot_forward_index(s)[f])
                && snapshot_originals(s)[snapshot_forward_index(s)[f]].contains(f)
}

/// The aging table restored from a snapshot: exactly the persisted
/// sightings of tracked originals. A tracked original an older snapshot
/// has no sighting for keeps none, and is then never aged out.
pub open spec fn restore_first_seen(s: &TrackerSnapshot) -> Map<OriginalMessageId, u64> {
    Map::new(
        |o: OriginalMessageId| snapshot_originals(s).contains_key(o)
            && snapshot_first_seen(s).contains_key(o),
        |o: OriginalMessageId| snapshot_first_seen(s)[o],
    )
}

} // verus!

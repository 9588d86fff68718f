//! The duplicate index: a bidirectional, chat-indexed mapping between
//! original messages and their forwarded copies, with read status and aging.
//!
//! The store is kept as association lists with pairwise distinct keys; its
//! meaning is the [`TrackerModel`] of finite maps and sets given by the view,
//! and every operation's contract is stated against that model.

use vstd::prelude::*;

use crate::assoc::{assoc_map, unique_keys, lemma_assoc_map_contains, lemma_assoc_map_get,
    lemma_assoc_map_len, lemma_assoc_map_push, lemma_assoc_map_remove_push};
use crate::snapshot::{TrackerSnapshot, snapshot_ok, snapshot_originals, snapshot_forward_index,
    snapshot_read, snapshot_first_seen, restore_first_seen};

verus! {

/// Identity of an authored original message inside the chat it was posted in.
#[derive(Clone, Copy, PartialEq, Eq, Hash, Debug, Structural)]
pub struct OriginalMessageId {
    pub peer_id: i64,
    pub message_id: i32,
}

/// One observed copy of an original inside a chat the account can see.
#[derive(Clone, Copy, PartialEq, Eq, Hash, Debug, Structural)]
pub struct ForwardLocation {
    pub chat_id: i64,
    pub message_id: i32,
}

/// The mathematical state of a [`DuplicateTracker`].
#[verifier::ext_equal]
pub struct TrackerModel {
    /// Every known copy of each original, in order of first registration.
    pub originals: Map<OriginalMessageId, Seq<ForwardLocation>>,
    /// Inverse view: each registered forward points back at its original.
    pub forward_index: Map<ForwardLocation, OriginalMessageId>,
    /// Originals the account has read.
    pub read: Set<OriginalMessageId>,
    /// Unix timestamp at which each original was first registered.
    pub first_seen: Map<OriginalMessageId, u64>,
    /// Derived cache: per chat, the registered (message id, original) pairs.
    pub chat_index: Map<i64, Seq<(i32, OriginalMessageId)>>,
}

/// The semantic invariant of the index model.
///
/// Its heart is the bijection between the flattened values of `originals`
/// and the keys of `forward_index`, together with the requirement that
/// `chat_index` is exactly `forward_index` grouped by chat.
pub open spec fn model_inv(m: TrackerModel) -> bool {
    &&& m.originals.dom().finite()
    &&& m.forward_index.dom().finite()
    &&& m.read.finite()
    &&& m.first_seen.dom().finite()
    &&& m.chat_index.dom().finite()
    // each forward list is duplicate-free
    &&& forall|o: OriginalMessageId, i: int, j: int|
            m.originals.contains_key(o) && 0 <= i < j < m.originals[o].len()
            ==> #[trigger] m.originals[o][i] != #[trigger] m.originals[o][j]
    // forward lists and the inverse index agree (one direction of the bijection)
    &&& forall|o: OriginalMessageId, f: ForwardLocation|
            m.originals.contains_key(o) && #[trigger] m.originals[o].contains(f)
            ==> m.forward_index.contains_key(f) && m.forward_index[f] == o
    // the other direction of the bijection
    &&& forall|f: ForwardLocation| #[trigger] m.forward_index.contains_key(f)
            ==> m.originals.contains_key(m.forward_index[f])
                && m.originals[m.forward_index[f]].contains(f)
    // only tracked originals carry a sighting; a tracked original may lack
    // one (an older restored state), and is then never aged out
    &&& forall|o: OriginalMessageId|
            #[trigger] m.first_seen.contains_key(o) ==> m.originals.contains_key(o)
    // chat entries name only registered forwards
    &&& forall|c: i64, i: int|
            m.chat_index.contains_key(c) && 0 <= i < m.chat_index[c].len()
            ==> m.forward_index.contains_key(entry_loc(c, #[trigger] m.chat_index[c][i]))
                && m.forward_index[entry_loc(c, m.chat_index[c][i])] == m.chat_index[c][i].1
    // every registered forward appears under its chat
    &&& forall|f: ForwardLocation| #[trigger] m.forward_index.contains_key(f)
            ==> m.chat_index.contains_key(f.chat_id)
                && m.chat_index[f.chat_id].contains((f.message_id, m.forward_index[f]))
    // within one chat, message ids occur at most once
    &&& forall|c: i64, i: int, j: int|
            m.chat_index.contains_key(c) && 0 <= i < j < m.chat_index[c].len()
            ==> (#[trigger] m.chat_index[c][i]).0 != (#[trigger] m.chat_index[c][j]).0
    // a chat is listed only while it still has entries
    &&& forall|c: i64| #[trigger] m.chat_index.contains_key(c) ==> m.chat_index[c].len() > 0
}

/// The forward location a chat-index entry of chat `c` stands for.
pub open spec fn entry_loc(c: i64, e: (i32, OriginalMessageId)) -> ForwardLocation {
    ForwardLocation { chat_id: c, message_id: e.0 }
}

/// The model of a freshly created index.
pub open spec fn empty_model() -> TrackerModel {
    TrackerModel {
        originals: Map::empty(),
        forward_index: Map::empty(),
        read: Set::empty(),
        first_seen: Map::empty(),
        chat_index: Map::empty(),
    }
}

/// Tracks which forwarded messages are copies of which originals, which
/// originals were read, and when each original was first seen.
pub struct DuplicateTracker {
    originals: Vec<(OriginalMessageId, Vec<ForwardLocation>)>,
    forward_index: Vec<(ForwardLocation, OriginalMessageId)>,
    read_originals: Vec<OriginalMessageId>,
    first_seen: Vec<(OriginalMessageId, u64)>,
    chat_index: Vec<(i64, Vec<(i32, OriginalMessageId)>)>,
}

impl View for DuplicateTracker {
    type V = TrackerModel;

    closed spec fn view(&self) -> TrackerModel {
        TrackerModel {
            originals: assoc_map(self.originals_seq()),
            forward_index: assoc_map(self.forward_index@),
            read: self.read_originals@.to_set(),
            first_seen: assoc_map(self.first_seen@),
            chat_index: assoc_map(self.chat_seq()),
        }
    }
}

/// A forward-list association vector with its value vectors read off as
/// sequences.
pub open spec fn map_originals(
    s: Seq<(OriginalMessageId, Vec<ForwardLocation>)>,
) -> Seq<(OriginalMessageId, Seq<ForwardLocation>)> {
    s.map_values(|p: (OriginalMessageId, Vec<ForwardLocation>)| (p.0, p.1@))
}

/// A chat-index association vector with its value vectors read off as
/// sequences.
pub open spec fn map_chats(
    s: Seq<(i64, Vec<(i32, OriginalMessageId)>)>,
) -> Seq<(i64, Seq<(i32, OriginalMessageId)>)> {
    s.map_values(|p: (i64, Vec<(i32, OriginalMessageId)>)| (p.0, p.1@))
}

impl DuplicateTracker {
    /// The forward lists with their vectors read off as sequences.
    closed spec fn originals_seq(&self) -> Seq<(OriginalMessageId, Seq<ForwardLocation>)> {
        map_originals(self.originals@)
    }

    /// The chat index with its vectors read off as sequences.
    closed spec fn chat_seq(&self) -> Seq<(i64, Seq<(i32, OriginalMessageId)>)> {
        map_chats(self.chat_index@)
    }

    /// Well-formed: distinct keys in every association list, a duplicate-free
    /// read list, and the semantic invariant of the denoted model.
    pub closed spec fn wf(&self) -> bool {
        &&& unique_keys(self.originals@)
        &&& unique_keys(self.forward_index@)
        &&& unique_keys(self.first_seen@)
        &&& unique_keys(self.chat_index@)
        &&& (forall|i: int, j: int| 0 <= i < j < self.read_originals@.len()
                ==> self.read_originals@[i] != self.read_originals@[j])
        &&& model_inv(self@)
    }

    /// The keys of the raw and the mapped association lists coincide.
    proof fn lemma_view_maps(&self)
        ensures
            unique_keys(self.originals@) ==> unique_keys(self.originals_seq()),
            unique_keys(self.chat_index@) ==> unique_keys(self.chat_seq()),
            forall|i: int| 0 <= i < self.originals@.len()
                ==> #[trigger] self.originals_seq()[i]
                    == (self.originals@[i].0, self.originals@[i].1@),
            forall|i: int| 0 <= i < self.chat_index@.len()
                ==> #[trigger] self.chat_seq()[i]
                    == (self.chat_index@[i].0, self.chat_index@[i].1@),
            self.originals_seq().len() == self.originals@.len(),
            self.chat_seq().len() == self.chat_index@.len(),
    {
    }
}

impl Default for DuplicateTracker {
    /// A fresh, empty index.
    fn default() -> (r: Self)
        ensures
            r.wf(),
            r@ == empty_model(),
    {
        let r = DuplicateTracker {
            originals: Vec::new(),
            forward_index: Vec::new(),
            read_originals: Vec::new(),
            first_seen: Vec::new(),
            chat_index: Vec::new(),
        };
        proof {
            assert(r.originals_seq().len() == 0);
            assert(r.chat_seq().len() == 0);
            assert(r.read_originals@.to_set() =~= Set::<OriginalMessageId>::empty());
            assert(r@ =~= empty_model()) by {
                assert(r@.originals =~= Map::<OriginalMessageId, Seq<ForwardLocation>>::empty());
                assert(r@.forward_index =~= Map::<ForwardLocation, OriginalMessageId>::empty());
                assert(r@.first_seen =~= Map::<OriginalMessageId, u64>::empty());
                assert(r@.chat_index =~= Map::<i64, Seq<(i32, OriginalMessageId)>>::empty());
            }
        }
        r
    }
}

/// Index of the pair carrying `o` in a forward-list association vector.
fn find_original_idx(
    v: &Vec<(OriginalMessageId, Vec<ForwardLocation>)>,
    o: &OriginalMessageId,
) -> (r: Option<usize>)
    ensures
        (match r {
            Some(i) => i < v.len() && v@[i as int].0 == *o,
            None => forall|j: int| 0 <= j < v@.len() ==> v@[j].0 != *o,
        }),
{
    let mut i: usize = 0;
    while i < v.len()
        invariant
            i <= v.len(),
            forall|j: int| 0 <= j < i ==> v@[j].0 != *o,
        decreases v.len() - i,
    {
        if v[i].0 == *o {
            return Some(i);
        }
        i += 1;
    }
    None
}

/// Index of the pair carrying `f` in the inverse-index vector.
fn find_forward_idx(
    v: &Vec<(ForwardLocation, OriginalMessageId)>,
    f: &ForwardLocation,
) -> (r: Option<usize>)
    ensures
        (match r {
            Some(i) => i < v.len() && v@[i as int].0 == *f,
            None => forall|j: int| 0 <= j < v@.len() ==> v@[j].0 != *f,
        }),
{
    let mut i: usize = 0;
    while i < v.len()
        invariant
            i <= v.len(),
            forall|j: int| 0 <= j < i ==> v@[j].0 != *f,
        decreases v.len() - i,
    {
        if v[i].0 == *f {
            return Some(i);
        }
        i += 1;
    }
    None
}

/// Index of the pair for chat `c` in the chat-index vector.
fn find_chat_idx(
    v: &Vec<(i64, Vec<(i32, OriginalMessageId)>)>,
    c: i64,
) -> (r: Option<usize>)
    ensures
        (match r {
            Some(i) => i < v.len() && v@[i as int].0 == c,
            None => forall|j: int| 0 <= j < v@.len() ==> v@[j].0 != c,
        }),
{
    let mut i: usize = 0;
    while i < v.len()
        invariant
            i <= v.len(),
            forall|j: int| 0 <= j < i ==> v@[j].0 != c,
        decreases v.len() - i,
    {
        if v[i].0 == c {
            return Some(i);
        }
        i += 1;
    }
    None
}

/// Index of the pair carrying `o` in the first-seen vector.
fn find_first_seen_idx(
    v: &Vec<(OriginalMessageId, u64)>,
    o: &OriginalMessageId,
) -> (r: Option<usize>)
    ensures
        (match r {
            Some(i) => i < v.len() && v@[i as int].0 == *o,
            None => forall|j: int| 0 <= j < v@.len() ==> v@[j].0 != *o,
        }),
{
    let mut i: usize = 0;
    while i < v.len()
        invariant
            i <= v.len(),
            forall|j: int| 0 <= j < i ==> v@[j].0 != *o,
        decreases v.len() - i,
    {
        if v[i].0 == *o {
            return Some(i);
        }
        i += 1;
    }
    None
}

/// Whether `o` is aged out: first seen, and seen strictly before `cutoff`.
fn is_dead(fs: &Vec<(OriginalMessageId, u64)>, o: &OriginalMessageId, cutoff: u64) -> (r: bool)
    requires
        unique_keys(fs@),
    ensures
        r == (assoc_map(fs@).contains_key(*o) && assoc_map(fs@)[*o] < cutoff),
{
    proof {
        lemma_assoc_map_contains(fs@);
        lemma_assoc_map_get(fs@);
    }
    match find_first_seen_idx(fs, o) {
        Some(i) => fs[i].1 < cutoff,
        None => false,
    }
}

/// A copy of a vector of plain values.
fn copy_vals<T: Copy>(v: &Vec<T>) -> (r: Vec<T>)
    ensures
        r@ == v@,
{
    let mut r: Vec<T> = Vec::new();
    let mut i: usize = 0;
    while i < v.len()
        invariant
            i <= v.len(),
            r@ == v@.take(i as int),
        decreases v.len() - i,
    {
        proof {
            assert(v@.take(i + 1).drop_last() =~= v@.take(i as int));
        }
        r.push(v[i]);
        proof {
            assert(r@ =~= v@.take(i + 1));
        }
        i += 1;
    }
    proof {
        assert(v@.take(v@.len() as int) =~= v@);
    }
    r
}

/// Whether the list of read originals carries `o`.
fn contains_id(v: &Vec<OriginalMessageId>, o: &OriginalMessageId) -> (r: bool)
    ensures
        r == v@.contains(*o),
{
    let mut i: usize = 0;
    while i < v.len()
        invariant
            i <= v.len(),
            forall|j: int| 0 <= j < i ==> v@[j] != *o,
        decreases v.len() - i,
    {
        if v[i] == *o {
            return true;
        }
        i += 1;
    }
    false
}

/// What merely making an original tracked at time `now` does to the model:
/// it owns a forward list (an empty one if it had none) and is aged from
/// its first sighting; nothing else moves.
pub open spec fn spec_touch(m: TrackerModel, o: OriginalMessageId, now: u64) -> TrackerModel {
    let fs = if m.first_seen.contains_key(o) {
        m.first_seen
    } else {
        m.first_seen.insert(o, now)
    };
    let prev = if m.originals.contains_key(o) {
        m.originals[o]
    } else {
        Seq::empty()
    };
    TrackerModel {
        originals: m.originals.insert(o, prev),
        forward_index: m.forward_index,
        read: m.read,
        first_seen: fs,
        chat_index: m.chat_index,
    }
}

/// What registering `forward` as a copy of `original` at time `now` does to
/// the model.
///
/// The original is tracked and aged from its first sighting on; the forward
/// is linked, listed under its original and entered in the chat index — but
/// only if it was not linked before, so that registering the same pair twice
/// leaves exactly one entry, and a forward once linked keeps its first
/// original.
pub open spec fn spec_register(
    m: TrackerModel,
    o: OriginalMessageId,
    f: ForwardLocation,
    now: u64,
) -> TrackerModel {
    let fs = if m.first_seen.contains_key(o) {
        m.first_seen
    } else {
        m.first_seen.insert(o, now)
    };
    let prev = if m.originals.contains_key(o) {
        m.originals[o]
    } else {
        Seq::empty()
    };
    if m.forward_index.contains_key(f) {
        spec_touch(m, o, now)
    } else {
        let prev_chat = if m.chat_index.contains_key(f.chat_id) {
            m.chat_index[f.chat_id]
        } else {
            Seq::empty()
        };
        TrackerModel {
            originals: m.originals.insert(o, prev.push(f)),
            forward_index: m.forward_index.insert(f, o),
            read: m.read,
            first_seen: fs,
            chat_index: m.chat_index.insert(f.chat_id, prev_chat.push((f.message_id, o))),
        }
    }
}

/// What marking `o` as read does to the model: only the read set grows.
pub open spec fn spec_mark_read(m: TrackerModel, o: OriginalMessageId) -> TrackerModel {
    TrackerModel {
        originals: m.originals,
        forward_index: m.forward_index,
        read: m.read.insert(o),
        first_seen: m.first_seen,
        chat_index: m.chat_index,
    }
}

/// Every forward known for `o`, in registration order; empty when `o` is
/// not tracked.
pub open spec fn spec_forwards_of(m: TrackerModel, o: OriginalMessageId) -> Seq<ForwardLocation> {
    if m.originals.contains_key(o) {
        m.originals[o]
    } else {
        Seq::empty()
    }
}

/// The chat-index entries recorded for chat `c`.
pub open spec fn chat_entries_of(m: TrackerModel, c: i64) -> Seq<(i32, OriginalMessageId)> {
    if m.chat_index.contains_key(c) {
        m.chat_index[c]
    } else {
        Seq::empty()
    }
}

/// The originals of the given chat entries whose message id is at most
/// `max_id` and that are not yet read — each exactly once, in the order of
/// its first qualifying entry, however many copies the chat holds.
pub open spec fn spec_find_read(
    entries: Seq<(i32, OriginalMessageId)>,
    read: Set<OriginalMessageId>,
    max_id: i32,
) -> Seq<OriginalMessageId>
    decreases entries.len(),
{
    if entries.len() == 0 {
        Seq::empty()
    } else {
        let rest = spec_find_read(entries.drop_last(), read, max_id);
        if entries.last().0 <= max_id && !read.contains(entries.last().1) && !rest.contains(
            entries.last().1,
        ) {
            rest.push(entries.last().1)
        } else {
            rest
        }
    }
}

/// The originals whose first sighting predates `cutoff`; cleanup purges
/// exactly these.
pub open spec fn dead_set(m: TrackerModel, cutoff: u64) -> Set<OriginalMessageId> {
    Set::new(|o: OriginalMessageId| m.first_seen.contains_key(o) && m.first_seen[o] < cutoff)
}

/// The chat entries left after dropping those whose original is purged,
/// in their old order.
pub open spec fn surviving_entries(
    entries: Seq<(i32, OriginalMessageId)>,
    dead: Set<OriginalMessageId>,
) -> Seq<(i32, OriginalMessageId)>
    decreases entries.len(),
{
    if entries.len() == 0 {
        Seq::empty()
    } else {
        let rest = surviving_entries(entries.drop_last(), dead);
        if dead.contains(entries.last().1) {
            rest
        } else {
            rest.push(entries.last())
        }
    }
}

/// The inverse index restricted to forwards whose original survives.
pub open spec fn drop_dead_links(
    fi: Map<ForwardLocation, OriginalMessageId>,
    dead: Set<OriginalMessageId>,
) -> Map<ForwardLocation, OriginalMessageId> {
    Map::new(
        |f: ForwardLocation| fi.contains_key(f) && !dead.contains(fi[f]),
        |f: ForwardLocation| fi[f],
    )
}

/// The chat index with purged originals dropped from every chat, and chats
/// left empty dropped altogether.
pub open spec fn prune_chats(
    ci: Map<i64, Seq<(i32, OriginalMessageId)>>,
    dead: Set<OriginalMessageId>,
) -> Map<i64, Seq<(i32, OriginalMessageId)>> {
    Map::new(
        |c: i64| ci.contains_key(c) && surviving_entries(ci[c], dead).len() > 0,
        |c: i64| surviving_entries(ci[c], dead),
    )
}

/// What purging every original first seen before `cutoff` does to the
/// model: each such original leaves all five structures at once, and
/// everything else is untouched.
pub open spec fn spec_cleanup(m: TrackerModel, cutoff: u64) -> TrackerModel {
    let dead = dead_set(m, cutoff);
    TrackerModel {
        originals: m.originals.remove_keys(dead),
        forward_index: drop_dead_links(m.forward_index, dead),
        read: m.read.difference(dead),
        first_seen: m.first_seen.remove_keys(dead),
        chat_index: prune_chats(m.chat_index, dead),
    }
}

/// Inserting a fresh key and then removing a key set is removing and then
/// inserting, unless the key is removed again.
proof fn lemma_remove_keys_insert<K, V>(m: Map<K, V>, keys: Set<K>, k: K, v: V)
    ensures
        m.insert(k, v).remove_keys(keys) == if keys.contains(k) {
            m.remove(k).remove_keys(keys)
        } else {
            m.remove_keys(keys).insert(k, v)
        },
{
    if keys.contains(k) {
        assert(m.insert(k, v).remove_keys(keys) =~= m.remove(k).remove_keys(keys));
    } else {
        assert(m.insert(k, v).remove_keys(keys) =~= m.remove_keys(keys).insert(k, v));
    }
}

/// The same distribution for the restriction of the inverse index.
proof fn lemma_drop_dead_insert(
    fi: Map<ForwardLocation, OriginalMessageId>,
    dead: Set<OriginalMessageId>,
    f: ForwardLocation,
    o: OriginalMessageId,
)
    requires
        !fi.contains_key(f),
    ensures
        drop_dead_links(fi.insert(f, o), dead) == if dead.contains(o) {
            drop_dead_links(fi, dead)
        } else {
            drop_dead_links(fi, dead).insert(f, o)
        },
{
    if dead.contains(o) {
        assert(drop_dead_links(fi.insert(f, o), dead) =~= drop_dead_links(fi, dead));
    } else {
        assert(drop_dead_links(fi.insert(f, o), dead) =~= drop_dead_links(fi, dead).insert(f, o));
    }
}

/// The same distribution for the pruned chat index.
proof fn lemma_prune_chats_insert(
    ci: Map<i64, Seq<(i32, OriginalMessageId)>>,
    dead: Set<OriginalMessageId>,
    c: i64,
    es: Seq<(i32, OriginalMessageId)>,
)
    requires
        !ci.contains_key(c),
    ensures
        prune_chats(ci.insert(c, es), dead) == if surviving_entries(es, dead).len() > 0 {
            prune_chats(ci, dead).insert(c, surviving_entries(es, dead))
        } else {
            prune_chats(ci, dead)
        },
{
    if surviving_entries(es, dead).len() > 0 {
        assert(prune_chats(ci.insert(c, es), dead) =~= prune_chats(ci, dead).insert(
            c,
            surviving_entries(es, dead),
        ));
    } else {
        assert(prune_chats(ci.insert(c, es), dead) =~= prune_chats(ci, dead));
    }
}

/// What survives the per-chat filter: exactly the old entries whose
/// original is not purged, with per-chat message ids staying unique.
pub proof fn lemma_surviving_entries(
    es: Seq<(i32, OriginalMessageId)>,
    dead: Set<OriginalMessageId>,
)
    ensures
        forall|e: (i32, OriginalMessageId)|
            #[trigger] surviving_entries(es, dead).contains(e)
                <==> es.contains(e) && !dead.contains(e.1),
        (forall|i: int, j: int| 0 <= i < j < es.len() ==> es[i].0 != es[j].0)
            ==> (forall|i: int, j: int|
                0 <= i < j < surviving_entries(es, dead).len()
                    ==> surviving_entries(es, dead)[i].0 != surviving_entries(es, dead)[j].0),
    decreases es.len(),
{
    let surv = surviving_entries(es, dead);
    if es.len() == 0 {
        assert(forall|e: (i32, OriginalMessageId)| !surv.contains(e));
        assert(forall|e: (i32, OriginalMessageId)| !es.contains(e));
    } else {
        let rest = surviving_entries(es.drop_last(), dead);
        lemma_surviving_entries(es.drop_last(), dead);
        assert forall|e: (i32, OriginalMessageId)| #[trigger] surv.contains(e)
            implies es.contains(e) && !dead.contains(e.1) by {
            let i = choose|i: int| 0 <= i < surv.len() && surv[i] == e;
            if i < rest.len() {
                assert(rest[i] == e);
                assert(rest.contains(e));
                let j = choose|j: int| 0 <= j < es.drop_last().len() && es.drop_last()[j] == e;
                assert(es[j] == e);
            } else {
                assert(e == es.last());
                assert(es[es.len() - 1] == e);
            }
        }
        assert forall|e: (i32, OriginalMessageId)| es.contains(e) && !dead.contains(e.1)
            implies #[trigger] surv.contains(e) by {
            let i = choose|i: int| 0 <= i < es.len() && es[i] == e;
            if i < es.len() - 1 {
                assert(es.drop_last()[i] == e);
                assert(es.drop_last().contains(e));
                assert(rest.contains(e));
                let j = choose|j: int| 0 <= j < rest.len() && rest[j] == e;
                assert(surv[j] == e);
            } else {
                assert(e == es.last());
                assert(surv[surv.len() - 1] == e);
            }
        }
        if forall|i: int, j: int| 0 <= i < j < es.len() ==> es[i].0 != es[j].0 {
            assert(forall|i: int, j: int|
                0 <= i < j < es.drop_last().len() ==> es.drop_last()[i].0 != es.drop_last()[j].0)
                by {
                assert forall|i: int, j: int| 0 <= i < j < es.drop_last().len()
                    implies es.drop_last()[i].0 != es.drop_last()[j].0 by {
                    assert(es[i].0 != es[j].0);
                }
            }
            assert forall|i: int, j: int| 0 <= i < j < surv.len()
                implies surv[i].0 != surv[j].0 by {
                if j == surv.len() - 1 && !dead.contains(es.last().1) && surv.len() > rest.len() {
                    // the last element of surv is es.last(); the rest stems
                    // from the shorter prefix
                    assert(surv[j] == es.last());
                    assert(rest[i] == surv[i]);
                    assert(rest.contains(rest[i]));
                    assert(es.drop_last().contains(surv[i]));
                    let k = choose|k: int|
                        0 <= k < es.drop_last().len() && es.drop_last()[k] == surv[i];
                    assert(es[k] == surv[i]);
                    assert(es[k].0 != es[es.len() - 1].0);
                } else {
                    assert(surv[i] == rest[i] && surv[j] == rest[j]);
                }
            }
        }
    }
}

/// Purging preserves the semantic invariant: what survives is exactly the
/// old state restricted to live originals, and it is again a consistent
/// index.
proof fn lemma_cleanup_inv(m0: TrackerModel, cutoff: u64)
    requires
        model_inv(m0),
    ensures
        model_inv(spec_cleanup(m0, cutoff)),
{
    let dead = dead_set(m0, cutoff);
    let m = spec_cleanup(m0, cutoff);

    assert forall|c: i64| #[trigger] m0.chat_index.contains_key(c) implies {
        &&& forall|e: (i32, OriginalMessageId)|
            #[trigger] surviving_entries(m0.chat_index[c], dead).contains(e)
                <==> m0.chat_index[c].contains(e) && !dead.contains(e.1)
        &&& forall|i: int, j: int|
            0 <= i < j < surviving_entries(m0.chat_index[c], dead).len()
                ==> surviving_entries(m0.chat_index[c], dead)[i].0
                    != surviving_entries(m0.chat_index[c], dead)[j].0
    } by {
        lemma_surviving_entries(m0.chat_index[c], dead);
        assert(forall|i: int, j: int|
            0 <= i < j < m0.chat_index[c].len()
                ==> (#[trigger] m0.chat_index[c][i]).0 != (#[trigger] m0.chat_index[c][j]).0);
    }

    // finiteness
    assert(m.originals.dom().finite()) by {
        assert(m.originals.dom() =~= m0.originals.dom().difference(dead));
        vstd::set::axiom_set_difference_finite(m0.originals.dom(), dead);
    }
    assert(m.forward_index.dom().finite()) by {
        let dead_links = Set::new(
            |f: ForwardLocation| m0.forward_index.contains_key(f)
                && dead.contains(m0.forward_index[f]),
        );
        assert(m.forward_index.dom() =~= m0.forward_index.dom().difference(dead_links));
        vstd::set::axiom_set_difference_finite(m0.forward_index.dom(), dead_links);
    }
    assert(m.read.finite()) by {
        vstd::set::axiom_set_difference_finite(m0.read, dead);
    }
    assert(m.first_seen.dom().finite()) by {
        assert(m.first_seen.dom() =~= m0.first_seen.dom().difference(dead));
        vstd::set::axiom_set_difference_finite(m0.first_seen.dom(), dead);
    }
    assert(m.chat_index.dom().finite()) by {
        let dropped = Set::new(
            |c: i64| m0.chat_index.contains_key(c)
                && surviving_entries(m0.chat_index[c], dead).len() == 0,
        );
        assert(m.chat_index.dom() =~= m0.chat_index.dom().difference(dropped));
        vstd::set::axiom_set_difference_finite(m0.chat_index.dom(), dropped);
    }

    // forward lists stay duplicate-free: values are unchanged
    assert(forall|o: OriginalMessageId, i: int, j: int|
        m.originals.contains_key(o) && 0 <= i < j < m.originals[o].len()
            ==> #[trigger] m.originals[o][i] != #[trigger] m.originals[o][j]);

    // the bijection survives in both directions
    assert forall|o: OriginalMessageId, f: ForwardLocation|
        m.originals.contains_key(o) && #[trigger] m.originals[o].contains(f)
        implies m.forward_index.contains_key(f) && m.forward_index[f] == o by {
        assert(m0.originals.contains_key(o) && m0.originals[o].contains(f));
    }
    assert forall|f: ForwardLocation| #[trigger] m.forward_index.contains_key(f)
        implies m.originals.contains_key(m.forward_index[f])
            && m.originals[m.forward_index[f]].contains(f) by {
        assert(m0.forward_index.contains_key(f));
    }

    // sightings still belong to tracked originals
    assert(forall|o: OriginalMessageId|
        #[trigger] m.first_seen.contains_key(o) ==> m.originals.contains_key(o));

    // chat entries still name registered forwards
    assert forall|c: i64, i: int|
        m.chat_index.contains_key(c) && 0 <= i < m.chat_index[c].len()
        implies m.forward_index.contains_key(entry_loc(c, #[trigger] m.chat_index[c][i]))
            && m.forward_index[entry_loc(c, m.chat_index[c][i])] == m.chat_index[c][i].1 by {
        let e = m.chat_index[c][i];
        assert(surviving_entries(m0.chat_index[c], dead).contains(e));
        assert(m0.chat_index[c].contains(e) && !dead.contains(e.1));
        let k = choose|k: int| 0 <= k < m0.chat_index[c].len() && m0.chat_index[c][k] == e;
        assert(m0.forward_index.contains_key(entry_loc(c, m0.chat_index[c][k]))
            && m0.forward_index[entry_loc(c, m0.chat_index[c][k])] == m0.chat_index[c][k].1);
    }

    // every surviving forward still appears under its chat
    assert forall|f: ForwardLocation| #[trigger] m.forward_index.contains_key(f)
        implies m.chat_index.contains_key(f.chat_id)
            && m.chat_index[f.chat_id].contains((f.message_id, m.forward_index[f])) by {
        let o = m0.forward_index[f];
        assert(m0.chat_index.contains_key(f.chat_id)
            && m0.chat_index[f.chat_id].contains((f.message_id, o)));
        assert(surviving_entries(m0.chat_index[f.chat_id], dead).contains((f.message_id, o)));
    }

    // per-chat message ids stay unique
    assert forall|c: i64, i: int, j: int|
        m.chat_index.contains_key(c) && 0 <= i < j < m.chat_index[c].len()
        implies (#[trigger] m.chat_index[c][i]).0 != (#[trigger] m.chat_index[c][j]).0 by {
        assert(m.chat_index[c] == surviving_entries(m0.chat_index[c], dead));
    }

    // chats are listed only while they have entries
    assert(forall|c: i64| #[trigger] m.chat_index.contains_key(c) ==> m.chat_index[c].len() > 0);
}

/// While restoring a snapshot: the links contributed by the first `i`
/// forward lists.
spec fn fi_prefix(s: &TrackerSnapshot, i: int) -> Map<ForwardLocation, OriginalMessageId> {
    Map::new(
        |f: ForwardLocation| exists|k: int|
            0 <= k < i && (#[trigger] s.originals@[k]).1@.contains(f),
        |f: ForwardLocation| snapshot_forward_index(s)[f],
    )
}

/// While restoring a snapshot: the links contributed by the first `i`
/// forward lists and the first `j` forwards of list `i`.
spec fn fi_prefix_plus(s: &TrackerSnapshot, i: int, j: int) -> Map<
    ForwardLocation,
    OriginalMessageId,
> {
    Map::new(
        |f: ForwardLocation| (exists|k: int|
            0 <= k < i && (#[trigger] s.originals@[k]).1@.contains(f)) || s.originals@[i].1@.take(
            j,
        ).contains(f),
        |f: ForwardLocation| snapshot_forward_index(s)[f],
    )
}

/// Relies on `std::time::SystemTime` for the wall clock, read as whole
/// seconds since the Unix epoch. Nothing can be promised of its value.
#[verifier::external_body]
fn epoch_secs() -> u64 {
    std::time::SystemTime::now()
        .duration_since(std::time::UNIX_EPOCH)
        .map(|d| d.as_secs())
        .unwrap_or(0)
}

impl DuplicateTracker {
    /// Register `forward` as a copy of `original`, recording `now` as the
    /// first sighting if the original is new. Returns whether the original
    /// had already been read, so the caller can mark the fresh copy read at
    /// once; callers that rely on later read events alone may ignore it.
    pub fn register_forward_at(
        &mut self,
        original: OriginalMessageId,
        forward: ForwardLocation,
        now: u64,
    ) -> (was_read: bool)
        requires
            old(self).wf(),
        ensures
            final(self).wf(),
            final(self)@ == spec_register(old(self)@, original, forward, now),
            was_read == old(self)@.read.contains(original),
    {
        let ghost m0 = self@;
        proof {
            lemma_assoc_map_contains(self.first_seen@);
            lemma_assoc_map_contains(self.originals_seq());
            lemma_assoc_map_get(self.originals_seq());
            lemma_assoc_map_contains(self.forward_index@);
            self.lemma_view_maps();
        }
        let was_read = contains_id(&self.read_originals, &original);

        // age the original from its first sighting on
        if find_first_seen_idx(&self.first_seen, &original).is_none() {
            proof {
                lemma_assoc_map_push(self.first_seen@, original, now);
            }
            self.first_seen.push((original, now));
        }
        assert(self@.first_seen == if m0.first_seen.contains_key(original) {
            m0.first_seen
        } else {
            m0.first_seen.insert(original, now)
        });
        assert(unique_keys(self.first_seen@));
        assert(self@.originals == m0.originals && self@.forward_index == m0.forward_index
            && self@.read == m0.read && self@.chat_index == m0.chat_index);

        // make sure the original owns a forward list
        let ghost prev = if m0.originals.contains_key(original) {
            m0.originals[original]
        } else {
            Seq::empty()
        };
        let oi: usize = match find_original_idx(&self.originals, &original) {
            Some(i) => i,
            None => {
                proof {
                    lemma_assoc_map_push(self.originals_seq(), original, Seq::<ForwardLocation>::empty());
                }
                let ghost before = self.originals_seq();
                self.originals.push((original, Vec::new()));
                proof {
                    assert(self.originals_seq() =~= before.push((original, Seq::empty())));
                    assert(unique_keys(self.originals@));
                }
                self.originals.len() - 1
            },
        };
        assert(oi < self.originals@.len() && self.originals@[oi as int].0 == original);
        assert(self@.originals == m0.originals.insert(original, prev)) by {
            if m0.originals.contains_key(original) {
                assert(m0.originals.insert(original, prev) =~= m0.originals);
            }
        }
        assert(self@.first_seen == spec_register(m0, original, forward, now).first_seen);

        match find_forward_idx(&self.forward_index, &forward) {
            Some(_) => {
                // the forward is already linked (to this or an earlier
                // original): leave every structure as it stands
                proof {
                    assert(m0.forward_index.contains_key(forward));
                    assert(self@ =~= spec_register(m0, original, forward, now));
                    self.lemma_touch_wf(m0, original, now, prev);
                }
            },
            None => {
                assert(!m0.forward_index.contains_key(forward));
                // the forward list of `original` cannot carry the forward yet
                assert(!prev.contains(forward)) by {
                    if prev.contains(forward) {
                        assert(m0.originals.contains_key(original)
                            && m0.originals[original].contains(forward));
                    }
                }

                // append to the original's forward list
                proof {
                    lemma_assoc_map_remove_push(self.originals@, oi as int,
                        self.originals@[oi as int].1);
                    lemma_assoc_map_remove_push(self.originals_seq(), oi as int,
                        prev.push(forward));
                }
                let ghost before = self.originals_seq();
                let mut entry = self.originals.remove(oi);
                entry.1.push(forward);
                self.originals.push(entry);
                proof {
                    assert(self.originals_seq() =~= before.remove(oi as int).push((
                        original,
                        prev.push(forward),
                    )));
                    assert(self@.originals == m0.originals.insert(original, prev.push(forward)));
                    assert(unique_keys(self.originals@));
                }

                // link the forward to its original
                proof {
                    lemma_assoc_map_push(self.forward_index@, forward, original);
                }
                self.forward_index.push((forward, original));
                assert(unique_keys(self.forward_index@));
                assert(self@.forward_index == m0.forward_index.insert(forward, original));

                // enter the forward under its chat
                let ghost prev_chat = if m0.chat_index.contains_key(forward.chat_id) {
                    m0.chat_index[forward.chat_id]
                } else {
                    Seq::empty()
                };
                proof {
                    lemma_assoc_map_contains(self.chat_seq());
                    lemma_assoc_map_get(self.chat_seq());
                }
                match find_chat_idx(&self.chat_index, forward.chat_id) {
                    Some(ci) => {
                        proof {
                            lemma_assoc_map_remove_push(self.chat_index@, ci as int,
                                self.chat_index@[ci as int].1);
                            lemma_assoc_map_remove_push(self.chat_seq(), ci as int,
                                prev_chat.push((forward.message_id, original)));
                        }
                        let ghost cbefore = self.chat_seq();
                        let mut centry = self.chat_index.remove(ci);
                        centry.1.push((forward.message_id, original));
                        self.chat_index.push(centry);
                        proof {
                            assert(self.chat_seq() =~= cbefore.remove(ci as int).push((
                                forward.chat_id,
                                prev_chat.push((forward.message_id, original)),
                            )));
                            assert(self@.chat_index == m0.chat_index.insert(
                                forward.chat_id,
                                prev_chat.push((forward.message_id, original)),
                            ));
                            assert(unique_keys(self.chat_index@));
                        }
                    },
                    None => {
                        assert(!m0.chat_index.contains_key(forward.chat_id));
                        proof {
                            lemma_assoc_map_push(self.chat_seq(), forward.chat_id,
                                Seq::<(i32, OriginalMessageId)>::empty().push((
                                    forward.message_id,
                                    original,
                                )));
                        }
                        let ghost cbefore = self.chat_seq();
                        let mut cv: Vec<(i32, OriginalMessageId)> = Vec::new();
                        cv.push((forward.message_id, original));
                        self.chat_index.push((forward.chat_id, cv));
                        proof {
                            assert(self.chat_seq() =~= cbefore.push((
                                forward.chat_id,
                                Seq::<(i32, OriginalMessageId)>::empty().push((
                                    forward.message_id,
                                    original,
                                )),
                            )));
                            assert(prev_chat =~= Seq::<(i32, OriginalMessageId)>::empty());
                            assert(self@.chat_index == m0.chat_index.insert(
                                forward.chat_id,
                                prev_chat.push((forward.message_id, original)),
                            ));
                            assert(unique_keys(self.chat_index@));
                        }
                    },
                }

                proof {
                    assert(self@ =~= spec_register(m0, original, forward, now));
                    self.lemma_register_wf_fresh(m0, original, forward, now, prev, prev_chat);
                }
            },
        }
        was_read
    }

    /// Well-formedness after an operation that only made an original
    /// tracked: registration of an already linked forward, or a bare touch.
    proof fn lemma_touch_wf(
        &self,
        m0: TrackerModel,
        o: OriginalMessageId,
        now: u64,
        prev: Seq<ForwardLocation>,
    )
        requires
            model_inv(m0),
            prev == (if m0.originals.contains_key(o) {
                m0.originals[o]
            } else {
                Seq::<ForwardLocation>::empty()
            }),
            self@ == spec_touch(m0, o, now),
            unique_keys(self.originals@),
            unique_keys(self.forward_index@),
            unique_keys(self.first_seen@),
            unique_keys(self.chat_index@),
            forall|i: int, j: int| 0 <= i < j < self.read_originals@.len()
                ==> self.read_originals@[i] != self.read_originals@[j],
        ensures
            self.wf(),
    {
        let m = self@;
        assert(m.originals == m0.originals.insert(o, prev));
        assert forall|oo: OriginalMessageId, ff: ForwardLocation|
            m.originals.contains_key(oo) && #[trigger] m.originals[oo].contains(ff)
            implies m.forward_index.contains_key(ff) && m.forward_index[ff] == oo by {
            if oo == o {
                assert(m0.originals.contains_key(o) && m0.originals[o].contains(ff));
            } else {
                assert(m0.originals.contains_key(oo) && m0.originals[oo].contains(ff));
            }
        }
        assert forall|ff: ForwardLocation| #[trigger] m.forward_index.contains_key(ff)
            implies m.originals.contains_key(m.forward_index[ff])
                && m.originals[m.forward_index[ff]].contains(ff) by {
            assert(m0.originals.contains_key(m0.forward_index[ff])
                && m0.originals[m0.forward_index[ff]].contains(ff));
        }
        assert(m.originals.dom().finite()) by {
            assert(m.originals.dom() =~= m0.originals.dom().insert(o));
        }
        assert(m.first_seen.dom().finite()) by {
            if !m0.first_seen.contains_key(o) {
                assert(m.first_seen.dom() =~= m0.first_seen.dom().insert(o));
            }
        }
    }

    /// Well-formedness after a registration that linked a fresh forward.
    proof fn lemma_register_wf_fresh(
        &self,
        m0: TrackerModel,
        o: OriginalMessageId,
        f: ForwardLocation,
        now: u64,
        prev: Seq<ForwardLocation>,
        prev_chat: Seq<(i32, OriginalMessageId)>,
    )
        requires
            model_inv(m0),
            !m0.forward_index.contains_key(f),
            prev == (if m0.originals.contains_key(o) {
                m0.originals[o]
            } else {
                Seq::<ForwardLocation>::empty()
            }),
            prev_chat == (if m0.chat_index.contains_key(f.chat_id) {
                m0.chat_index[f.chat_id]
            } else {
                Seq::<(i32, OriginalMessageId)>::empty()
            }),
            self@ == spec_register(m0, o, f, now),
            unique_keys(self.originals@),
            unique_keys(self.forward_index@),
            unique_keys(self.first_seen@),
            unique_keys(self.chat_index@),
            forall|i: int, j: int| 0 <= i < j < self.read_originals@.len()
                ==> self.read_originals@[i] != self.read_originals@[j],
        ensures
            self.wf(),
    {
        let m = self@;
        assert(!prev.contains(f)) by {
            if prev.contains(f) {
                assert(m0.originals.contains_key(o) && m0.originals[o].contains(f));
            }
        }
        assert(m.originals == m0.originals.insert(o, prev.push(f)));
        assert(m.forward_index == m0.forward_index.insert(f, o));
        assert(m.chat_index == m0.chat_index.insert(f.chat_id, prev_chat.push((f.message_id, o))));

        // forward lists stay duplicate-free
        assert forall|oo: OriginalMessageId, i: int, j: int|
            m.originals.contains_key(oo) && 0 <= i < j < m.originals[oo].len()
            implies #[trigger] m.originals[oo][i] != #[trigger] m.originals[oo][j] by {
            if oo == o {
                if j == prev.len() {
                    assert(m.originals[oo][j] == f);
                    assert(m.originals[oo][i] == prev[i]);
                    assert(prev.contains(prev[i]));
                } else {
                    assert(m.originals[oo][i] == prev[i] && m.originals[oo][j] == prev[j]);
                }
            }
        }

        // lists and inverse index agree
        assert forall|oo: OriginalMessageId, ff: ForwardLocation|
            m.originals.contains_key(oo) && #[trigger] m.originals[oo].contains(ff)
            implies m.forward_index.contains_key(ff) && m.forward_index[ff] == oo by {
            if oo == o {
                if ff == f {
                } else {
                    let i = choose|i: int| 0 <= i < m.originals[o].len()
                        && m.originals[o][i] == ff;
                    assert(i < prev.len() && prev[i] == ff);
                    assert(prev.contains(ff));
                    assert(m0.originals.contains_key(o) && m0.originals[o].contains(ff));
                }
            } else {
                assert(m0.originals.contains_key(oo) && m0.originals[oo].contains(ff));
                assert(ff != f);
            }
        }
        assert forall|ff: ForwardLocation| #[trigger] m.forward_index.contains_key(ff)
            implies m.originals.contains_key(m.forward_index[ff])
                && m.originals[m.forward_index[ff]].contains(ff) by {
            if ff == f {
                assert(m.originals[o].contains(f)) by {
                    assert(m.originals[o][prev.len() as int] == f);
                }
            } else {
                let oo = m0.forward_index[ff];
                assert(m0.originals.contains_key(oo) && m0.originals[oo].contains(ff));
                if oo == o {
                    let i = choose|i: int| 0 <= i < prev.len() && prev[i] == ff;
                    assert(m.originals[o][i] == ff);
                }
            }
        }

        // chat entries name registered forwards
        assert forall|c: i64, i: int|
            m.chat_index.contains_key(c) && 0 <= i < m.chat_index[c].len()
            implies m.forward_index.contains_key(entry_loc(c, #[trigger] m.chat_index[c][i]))
                && m.forward_index[entry_loc(c, m.chat_index[c][i])] == m.chat_index[c][i].1 by {
            if c == f.chat_id {
                if i < prev_chat.len() {
                    assert(m.chat_index[c][i] == prev_chat[i]);
                    assert(m0.chat_index.contains_key(c) && m0.chat_index[c][i] == prev_chat[i]);
                    assert(entry_loc(c, prev_chat[i]) != f) by {
                        assert(m0.forward_index.contains_key(entry_loc(c, prev_chat[i])));
                    }
                } else {
                    assert(m.chat_index[c][i] == (f.message_id, o));
                    assert(entry_loc(c, (f.message_id, o)) == f);
                }
            } else {
                assert(m0.chat_index.contains_key(c) && m0.chat_index[c] == m.chat_index[c]);
                assert(entry_loc(c, m.chat_index[c][i]).chat_id == c);
            }
        }

        // every registered forward appears under its chat
        assert forall|ff: ForwardLocation| #[trigger] m.forward_index.contains_key(ff)
            implies m.chat_index.contains_key(ff.chat_id)
                && m.chat_index[ff.chat_id].contains((ff.message_id, m.forward_index[ff])) by {
            if ff == f {
                assert(m.chat_index[f.chat_id][prev_chat.len() as int] == (f.message_id, o));
            } else {
                assert(m0.forward_index.contains_key(ff));
                assert(m0.chat_index.contains_key(ff.chat_id)
                    && m0.chat_index[ff.chat_id].contains((ff.message_id, m0.forward_index[ff])));
                if ff.chat_id == f.chat_id {
                    let i = choose|i: int| 0 <= i < prev_chat.len()
                        && prev_chat[i] == (ff.message_id, m0.forward_index[ff]);
                    assert(m.chat_index[ff.chat_id][i] == (ff.message_id, m.forward_index[ff]));
                }
            }
        }

        // within one chat, message ids stay unique
        assert forall|c: i64, i: int, j: int|
            m.chat_index.contains_key(c) && 0 <= i < j < m.chat_index[c].len()
            implies (#[trigger] m.chat_index[c][i]).0 != (#[trigger] m.chat_index[c][j]).0 by {
            if c == f.chat_id {
                if j == prev_chat.len() {
                    assert(m.chat_index[c][i] == prev_chat[i]);
                    assert(m0.chat_index.contains_key(c) ==> (
                        m0.forward_index.contains_key(entry_loc(c, prev_chat[i]))));
                    if prev_chat[i].0 == f.message_id {
                        assert(entry_loc(c, prev_chat[i]) == f);
                    }
                } else {
                    assert(m.chat_index[c][i] == prev_chat[i]
                        && m.chat_index[c][j] == prev_chat[j]);
                }
            }
        }

        // finite domains
        assert(m.originals.dom().finite()) by {
            assert(m.originals.dom() =~= m0.originals.dom().insert(o));
        }
        assert(m.forward_index.dom().finite()) by {
            assert(m.forward_index.dom() =~= m0.forward_index.dom().insert(f));
        }
        assert(m.chat_index.dom().finite()) by {
            assert(m.chat_index.dom() =~= m0.chat_index.dom().insert(f.chat_id));
        }
        assert(m.first_seen.dom().finite()) by {
            if !m0.first_seen.contains_key(o) {
                assert(m.first_seen.dom() =~= m0.first_seen.dom().insert(o));
            }
        }
    }

    /// Register `forward` as a copy of `original`, stamping a fresh original
    /// with the current wall-clock time. Returns whether the original had
    /// already been read.
    pub fn register_forward(
        &mut self,
        original: OriginalMessageId,
        forward: ForwardLocation,
    ) -> (was_read: bool)
        requires
            old(self).wf(),
        ensures
            final(self).wf(),
            exists|now: u64| final(self)@ == spec_register(old(self)@, original, forward, now),
            was_read == old(self)@.read.contains(original),
    {
        let now = epoch_secs();
        let r = self.register_forward_at(original, forward, now);
        proof {
            assert(self@ == spec_register(old(self)@, original, forward, now));
        }
        r
    }

    /// Look up which original a forward belongs to.
    pub fn lookup_forward(&self, forward: &ForwardLocation) -> (r: Option<OriginalMessageId>)
        requires
            self.wf(),
        ensures
            (match r {
                Some(o) => self@.forward_index.contains_key(*forward)
                    && self@.forward_index[*forward] == o,
                None => !self@.forward_index.contains_key(*forward),
            }),
    {
        proof {
            lemma_assoc_map_contains(self.forward_index@);
            lemma_assoc_map_get(self.forward_index@);
        }
        match find_forward_idx(&self.forward_index, forward) {
            Some(i) => Some(self.forward_index[i].1),
            None => None,
        }
    }

    /// Mark an original as read and return every forward currently known
    /// for it, in registration order, so the caller can propagate read
    /// status to all copies.
    pub fn mark_original_read(&mut self, original: &OriginalMessageId) -> (r: Vec<ForwardLocation>)
        requires
            old(self).wf(),
        ensures
            final(self).wf(),
            final(self)@ == spec_mark_read(old(self)@, *original),
            r@ == spec_forwards_of(old(self)@, *original),
    {
        let ghost m0 = self@;
        if !contains_id(&self.read_originals, original) {
            let ghost before = self.read_originals@;
            self.read_originals.push(*original);
            proof {
                assert forall|a: OriginalMessageId| self.read_originals@.to_set().contains(a)
                    implies #[trigger] m0.read.insert(*original).contains(a) by {
                    let j = choose|j: int| 0 <= j < self.read_originals@.len()
                        && self.read_originals@[j] == a;
                    if j < before.len() {
                        assert(before[j] == a);
                    }
                }
                assert forall|a: OriginalMessageId| m0.read.insert(*original).contains(a)
                    implies #[trigger] self.read_originals@.to_set().contains(a) by {
                    if a == *original {
                        assert(self.read_originals@[before.len() as int] == a);
                    } else {
                        let j = choose|j: int| 0 <= j < before.len() && before[j] == a;
                        assert(self.read_originals@[j] == a);
                    }
                }
                assert(self.read_originals@.to_set() =~= m0.read.insert(*original));
                assert(m0.read.insert(*original).finite());
            }
        } else {
            proof {
                assert(m0.read.insert(*original) =~= m0.read);
            }
        }
        assert(self@ =~= spec_mark_read(m0, *original));

        proof {
            lemma_assoc_map_contains(self.originals_seq());
            lemma_assoc_map_get(self.originals_seq());
            self.lemma_view_maps();
        }
        match find_original_idx(&self.originals, original) {
            Some(i) => {
                proof {
                    assert(self.originals_seq()[i as int].0 == *original);
                    assert(self@.originals.contains_key(*original));
                    assert(self@.originals[*original] == self.originals_seq()[i as int].1);
                    assert(self.originals_seq()[i as int].1 == self.originals@[i as int].1@);
                }
                copy_vals(&self.originals[i].1)
            },
            None => {
                proof {
                    assert(forall|j: int| 0 <= j < self.originals_seq().len()
                        ==> (#[trigger] self.originals_seq()[j]).0 != *original);
                    assert(!self@.originals.contains_key(*original));
                }
                Vec::new()
            },
        }
    }

    /// Override the recorded first-sighting timestamp of a tracked original;
    /// an unknown original is left untouched.
    pub fn set_first_seen(&mut self, original: &OriginalMessageId, timestamp: u64)
        requires
            old(self).wf(),
        ensures
            final(self).wf(),
            final(self)@ == (if old(self)@.first_seen.contains_key(*original) {
                TrackerModel {
                    originals: old(self)@.originals,
                    forward_index: old(self)@.forward_index,
                    read: old(self)@.read,
                    first_seen: old(self)@.first_seen.insert(*original, timestamp),
                    chat_index: old(self)@.chat_index,
                }
            } else {
                old(self)@
            }),
    {
        let ghost m0 = self@;
        proof {
            lemma_assoc_map_contains(self.first_seen@);
        }
        match find_first_seen_idx(&self.first_seen, original) {
            Some(i) => {
                proof {
                    lemma_assoc_map_remove_push(self.first_seen@, i as int, timestamp);
                }
                self.first_seen.remove(i);
                self.first_seen.push((*original, timestamp));
                proof {
                    assert(self@.first_seen == m0.first_seen.insert(*original, timestamp));
                    assert(m0.first_seen.insert(*original, timestamp).dom() =~= m0.first_seen.dom());
                    assert(forall|o: OriginalMessageId|
                        #[trigger] self@.first_seen.contains_key(o)
                            <==> m0.first_seen.contains_key(o));
                }
            },
            None => {},
        }
    }

    /// A well-formed tracker's model satisfies the semantic invariant; the
    /// constructor establishes well-formedness and every operation keeps it,
    /// so the invariant holds after any sequence of operations.
    pub proof fn lemma_wf_model_inv(&self)
        requires
            self.wf(),
        ensures
            model_inv(self@),
    {
    }

    /// Check whether an original has been read.
    pub fn is_original_read(&self, original: &OriginalMessageId) -> (r: bool)
        requires
            self.wf(),
        ensures
            r == self@.read.contains(*original),
    {
        contains_id(&self.read_originals, original)
    }

    /// Purge every original first seen strictly before `cutoff`: it leaves
    /// `originals`, its forwards leave the inverse index and their chats
    /// (a chat left empty is dropped), and its read bit and first sighting
    /// are forgotten. Originals seen at or after `cutoff` are untouched.
    pub fn cleanup_before(&mut self, cutoff: u64)
        requires
            old(self).wf(),
        ensures
            final(self).wf(),
            final(self)@ == spec_cleanup(old(self)@, cutoff),
    {
        let ghost m0 = self@;
        let ghost dead = dead_set(m0, cutoff);
        proof {
            assert forall|o: OriginalMessageId|
                (assoc_map(self.first_seen@).contains_key(o)
                    && assoc_map(self.first_seen@)[o] < cutoff) == dead.contains(o) by {}
        }

        // survivors of the forward-list table
        let mut new_originals: Vec<(OriginalMessageId, Vec<ForwardLocation>)> = Vec::new();
        let mut i: usize = 0;
        while i < self.originals.len()
            invariant
                i <= self.originals@.len(),
                self == old(self),
                old(self).wf(),
                m0 == self@,
                dead == dead_set(m0, cutoff),
                unique_keys(new_originals@),
                assoc_map(map_originals(new_originals@)) == assoc_map(
                    map_originals(self.originals@.take(i as int)),
                ).remove_keys(dead),
            decreases self.originals@.len() - i,
        {
            let ghost tk = map_originals(self.originals@.take(i as int));
            let ghost tk1 = map_originals(self.originals@.take(i + 1));
            let ghost key = self.originals@[i as int].0;
            let ghost val = self.originals@[i as int].1@;
            proof {
                assert(tk1 =~= tk.push((key, val)));
                lemma_assoc_map_push(tk, key, val);
                lemma_remove_keys_insert(assoc_map(tk), dead, key, val);
                lemma_assoc_map_contains(tk);
                assert(!assoc_map(tk).contains_key(key)) by {
                    assert(forall|j: int| 0 <= j < i ==> tk[j].0 == self.originals@[j].0);
                }
                assert(assoc_map(tk).remove(key) =~= assoc_map(tk));
                lemma_assoc_map_contains(map_originals(new_originals@));
            }
            let k = self.originals[i].0;
            if !is_dead(&self.first_seen, &k, cutoff) {
                let ghost before = map_originals(new_originals@);
                assert(!dead.contains(key));
                assert forall|jj: int| 0 <= jj < new_originals@.len()
                    implies (#[trigger] new_originals@[jj]).0 != key by {
                    assert(map_originals(new_originals@)[jj].0 == new_originals@[jj].0);
                    assert(assoc_map(map_originals(new_originals@)).contains_key(
                        map_originals(new_originals@)[jj].0,
                    )) by {
                        lemma_assoc_map_contains(map_originals(new_originals@));
                    }
                }
                let copied = copy_vals(&self.originals[i].1);
                new_originals.push((k, copied));
                proof {
                    assert(map_originals(new_originals@) =~= before.push((key, val)));
                    lemma_assoc_map_push(before, key, val);
                }
            } else {
                assert(dead.contains(key));
            }
            i += 1;
        }
        proof {
            assert(self.originals@.take(self.originals@.len() as int) =~= self.originals@);
            assert(assoc_map(map_originals(new_originals@)) == m0.originals.remove_keys(dead));
        }

        // survivors of the inverse index
        let mut new_fi: Vec<(ForwardLocation, OriginalMessageId)> = Vec::new();
        let mut i: usize = 0;
        while i < self.forward_index.len()
            invariant
                i <= self.forward_index@.len(),
                self == old(self),
                old(self).wf(),
                m0 == self@,
                dead == dead_set(m0, cutoff),
                unique_keys(new_fi@),
                assoc_map(new_fi@) == drop_dead_links(
                    assoc_map(self.forward_index@.take(i as int)),
                    dead,
                ),
            decreases self.forward_index@.len() - i,
        {
            let ghost tk = self.forward_index@.take(i as int);
            let ghost pair = self.forward_index@[i as int];
            proof {
                assert(self.forward_index@.take(i + 1) =~= tk.push(pair));
                lemma_assoc_map_push(tk, pair.0, pair.1);
                lemma_assoc_map_contains(tk);
                assert(!assoc_map(tk).contains_key(pair.0)) by {
                    assert(forall|j: int| 0 <= j < i ==> tk[j] == self.forward_index@[j]);
                }
                lemma_drop_dead_insert(assoc_map(tk), dead, pair.0, pair.1);
                lemma_assoc_map_contains(new_fi@);
            }
            let p = (self.forward_index[i].0, self.forward_index[i].1);
            if !is_dead(&self.first_seen, &p.1, cutoff) {
                let ghost before = new_fi@;
                assert forall|jj: int| 0 <= jj < new_fi@.len()
                    implies (#[trigger] new_fi@[jj]).0 != pair.0 by {
                    assert(assoc_map(new_fi@).contains_key(new_fi@[jj].0));
                }
                new_fi.push(p);
                proof {
                    lemma_assoc_map_push(before, pair.0, pair.1);
                }
            }
            i += 1;
        }
        proof {
            assert(self.forward_index@.take(self.forward_index@.len() as int)
                =~= self.forward_index@);
            assert(assoc_map(new_fi@) == drop_dead_links(m0.forward_index, dead));
        }

        // survivors of the read set
        let mut new_read: Vec<OriginalMessageId> = Vec::new();
        let mut i: usize = 0;
        while i < self.read_originals.len()
            invariant
                i <= self.read_originals@.len(),
                self == old(self),
                old(self).wf(),
                m0 == self@,
                dead == dead_set(m0, cutoff),
                forall|a: int, b: int| 0 <= a < b < new_read@.len()
                    ==> new_read@[a] != new_read@[b],
                forall|a: OriginalMessageId| #[trigger] new_read@.contains(a)
                    <==> self.read_originals@.take(i as int).contains(a) && !dead.contains(a),
            decreases self.read_originals@.len() - i,
        {
            let ghost tk = self.read_originals@.take(i as int);
            let ghost tk1 = self.read_originals@.take(i + 1);
            let ghost elem = self.read_originals@[i as int];
            proof {
                assert(tk1 =~= tk.push(elem));
                assert forall|a: OriginalMessageId| #[trigger] tk1.contains(a)
                    implies tk.contains(a) || a == elem by {
                    let j = choose|j: int| 0 <= j < tk1.len() && tk1[j] == a;
                    if j < tk.len() {
                        assert(tk[j] == a);
                    }
                }
                assert(forall|a: OriginalMessageId| tk.contains(a) ==> #[trigger] tk1.contains(a));
                assert(tk1.contains(elem)) by {
                    assert(tk1[tk1.len() - 1] == elem);
                }
            }
            let a = self.read_originals[i];
            if !is_dead(&self.first_seen, &a, cutoff) {
                let ghost before = new_read@;
                assert(!new_read@.contains(elem)) by {
                    assert(forall|b: int| 0 <= b < i
                        ==> #[trigger] self.read_originals@[b] != elem);
                    if tk.contains(elem) {
                        let j = choose|j: int| 0 <= j < tk.len() && tk[j] == elem;
                        assert(self.read_originals@[j] == elem);
                    }
                }
                new_read.push(a);
                proof {
                    assert forall|x: OriginalMessageId| #[trigger] new_read@.contains(x)
                        implies tk1.contains(x) && !dead.contains(x) by {
                        let j = choose|j: int| 0 <= j < new_read@.len() && new_read@[j] == x;
                        if j < before.len() {
                            assert(before[j] == x);
                            assert(before.contains(x));
                        } else {
                            assert(x == elem);
                        }
                    }
                    assert forall|x: OriginalMessageId| tk1.contains(x) && !dead.contains(x)
                        implies #[trigger] new_read@.contains(x) by {
                        if x == elem {
                            assert(new_read@[new_read@.len() - 1] == x);
                        } else {
                            assert(tk.contains(x));
                            assert(before.contains(x));
                            let j = choose|j: int| 0 <= j < before.len() && before[j] == x;
                            assert(new_read@[j] == x);
                        }
                    }
                }
            } else {
                proof {
                    assert forall|x: OriginalMessageId| tk1.contains(x) && !dead.contains(x)
                        implies #[trigger] new_read@.contains(x) by {
                        assert(x != elem);
                        assert(tk.contains(x));
                    }
                }
            }
            i += 1;
        }
        proof {
            assert(self.read_originals@.take(self.read_originals@.len() as int)
                =~= self.read_originals@);
            assert forall|a: OriginalMessageId| new_read@.to_set().contains(a)
                == #[trigger] m0.read.difference(dead).contains(a) by {}
            assert(new_read@.to_set() =~= m0.read.difference(dead));
        }

        // survivors of the aging table
        let mut new_fs: Vec<(OriginalMessageId, u64)> = Vec::new();
        let mut i: usize = 0;
        while i < self.first_seen.len()
            invariant
                i <= self.first_seen@.len(),
                self == old(self),
                old(self).wf(),
                m0 == self@,
                dead == dead_set(m0, cutoff),
                unique_keys(new_fs@),
                assoc_map(new_fs@) == assoc_map(self.first_seen@.take(i as int)).remove_keys(dead),
            decreases self.first_seen@.len() - i,
        {
            let ghost tk = self.first_seen@.take(i as int);
            let ghost pair = self.first_seen@[i as int];
            proof {
                assert(self.first_seen@.take(i + 1) =~= tk.push(pair));
                lemma_assoc_map_push(tk, pair.0, pair.1);
                lemma_assoc_map_contains(tk);
                assert(!assoc_map(tk).contains_key(pair.0)) by {
                    assert(forall|j: int| 0 <= j < i ==> tk[j] == self.first_seen@[j]);
                }
                assert(assoc_map(tk).remove(pair.0) =~= assoc_map(tk));
                lemma_remove_keys_insert(assoc_map(tk), dead, pair.0, pair.1);
                lemma_assoc_map_contains(new_fs@);
                lemma_assoc_map_get(self.first_seen@);
                assert(assoc_map(self.first_seen@).contains_key(pair.0)
                    && assoc_map(self.first_seen@)[pair.0] == pair.1) by {
                    assert(self.first_seen@[i as int].0 == pair.0);
                }
            }
            let p = (self.first_seen[i].0, self.first_seen[i].1);
            if !(p.1 < cutoff) {
                let ghost before = new_fs@;
                assert(!dead.contains(pair.0));
                assert forall|jj: int| 0 <= jj < new_fs@.len()
                    implies (#[trigger] new_fs@[jj]).0 != pair.0 by {
                    assert(assoc_map(new_fs@).contains_key(new_fs@[jj].0));
                }
                new_fs.push(p);
                proof {
                    lemma_assoc_map_push(before, pair.0, pair.1);
                }
            } else {
                assert(dead.contains(pair.0));
            }
            i += 1;
        }
        proof {
            assert(self.first_seen@.take(self.first_seen@.len() as int) =~= self.first_seen@);
            assert(assoc_map(new_fs@) == m0.first_seen.remove_keys(dead));
        }

        // survivors of the chat index
        let mut new_chat: Vec<(i64, Vec<(i32, OriginalMessageId)>)> = Vec::new();
        let mut i: usize = 0;
        while i < self.chat_index.len()
            invariant
                i <= self.chat_index@.len(),
                self == old(self),
                old(self).wf(),
                m0 == self@,
                dead == dead_set(m0, cutoff),
                unique_keys(new_chat@),
                assoc_map(map_chats(new_chat@)) == prune_chats(
                    assoc_map(map_chats(self.chat_index@.take(i as int))),
                    dead,
                ),
            decreases self.chat_index@.len() - i,
        {
            let ghost tk = map_chats(self.chat_index@.take(i as int));
            let ghost ckey = self.chat_index@[i as int].0;
            let ghost centries = self.chat_index@[i as int].1@;
            proof {
                assert(map_chats(self.chat_index@.take(i + 1)) =~= tk.push((ckey, centries)));
                lemma_assoc_map_push(tk, ckey, centries);
                lemma_assoc_map_contains(tk);
                assert(!assoc_map(tk).contains_key(ckey)) by {
                    assert(forall|j: int| 0 <= j < i ==> tk[j].0 == self.chat_index@[j].0);
                }
                lemma_prune_chats_insert(assoc_map(tk), dead, ckey, centries);
                lemma_assoc_map_contains(map_chats(new_chat@));
            }

            // filter this chat's entries
            let mut filt: Vec<(i32, OriginalMessageId)> = Vec::new();
            let ev = &self.chat_index[i].1;
            let mut j: usize = 0;
            while j < ev.len()
                invariant
                    j <= ev@.len(),
                    ev@ == centries,
                    self == old(self),
                    old(self).wf(),
                    m0 == self@,
                    dead == dead_set(m0, cutoff),
                    filt@ == surviving_entries(centries.take(j as int), dead),
                decreases ev@.len() - j,
            {
                proof {
                    assert(centries.take(j + 1).drop_last() =~= centries.take(j as int));
                    assert(centries.take(j + 1).last() == centries[j as int]);
                }
                let e = ev[j];
                if !is_dead(&self.first_seen, &e.1, cutoff) {
                    filt.push(e);
                }
                j += 1;
            }
            proof {
                assert(centries.take(centries.len() as int) =~= centries);
                assert(filt@ == surviving_entries(centries, dead));
            }

            if filt.len() > 0 {
                let ghost before = map_chats(new_chat@);
                assert forall|jj: int| 0 <= jj < new_chat@.len()
                    implies (#[trigger] new_chat@[jj]).0 != ckey by {
                    assert(map_chats(new_chat@)[jj].0 == new_chat@[jj].0);
                    assert(assoc_map(map_chats(new_chat@)).contains_key(
                        map_chats(new_chat@)[jj].0,
                    ));
                }
                let ghost fseq = filt@;
                new_chat.push((self.chat_index[i].0, filt));
                proof {
                    assert(map_chats(new_chat@) =~= before.push((ckey, fseq)));
                    lemma_assoc_map_push(before, ckey, fseq);
                }
            }
            i += 1;
        }
        proof {
            assert(self.chat_index@.take(self.chat_index@.len() as int) =~= self.chat_index@);
            assert(assoc_map(map_chats(new_chat@)) == prune_chats(m0.chat_index, dead));
        }

        // install the survivors
        self.originals = new_originals;
        self.forward_index = new_fi;
        self.read_originals = new_read;
        self.first_seen = new_fs;
        self.chat_index = new_chat;
        proof {
            assert(self@ =~= spec_cleanup(m0, cutoff));
            lemma_cleanup_inv(m0, cutoff);
        }
    }

    /// Make an original tracked without linking a forward: it owns a
    /// (possibly empty) forward list and is aged from `now` if new.
    fn ensure_tracked(&mut self, original: OriginalMessageId, now: u64)
        requires
            old(self).wf(),
        ensures
            final(self).wf(),
            final(self)@ == spec_touch(old(self)@, original, now),
    {
        let ghost m0 = self@;
        proof {
            lemma_assoc_map_contains(self.first_seen@);
            lemma_assoc_map_contains(self.originals_seq());
            lemma_assoc_map_get(self.originals_seq());
            self.lemma_view_maps();
        }
        let ghost prev = if m0.originals.contains_key(original) {
            m0.originals[original]
        } else {
            Seq::<ForwardLocation>::empty()
        };
        if find_first_seen_idx(&self.first_seen, &original).is_none() {
            proof {
                lemma_assoc_map_push(self.first_seen@, original, now);
            }
            self.first_seen.push((original, now));
        }
        match find_original_idx(&self.originals, &original) {
            None => {
                proof {
                    lemma_assoc_map_push(self.originals_seq(), original,
                        Seq::<ForwardLocation>::empty());
                }
                let ghost before = self.originals_seq();
                self.originals.push((original, Vec::new()));
                proof {
                    assert(self.originals_seq() =~= before.push((original, Seq::empty())));
                    assert(unique_keys(self.originals@));
                }
            },
            Some(idx) => {
                proof {
                    assert(self.originals_seq()[idx as int].0 == original);
                    assert(m0.originals.contains_key(original));
                    assert(m0.originals[original] == self.originals_seq()[idx as int].1);
                    assert(m0.originals.insert(original, prev) =~= m0.originals);
                }
            },
        }
        proof {
            assert(self@ =~= spec_touch(m0, original, now));
            self.lemma_touch_wf(m0, original, now, prev);
        }
    }

    /// The persisted form of the index: the four durable tables, copied
    /// out as plain pair vectors. The chat index is cache and stays behind.
    pub fn to_snapshot(&self) -> (s: TrackerSnapshot)
        requires
            self.wf(),
        ensures
            snapshot_ok(&s),
            snapshot_originals(&s) == self@.originals,
            snapshot_forward_index(&s) == self@.forward_index,
            snapshot_read(&s) == self@.read,
            snapshot_first_seen(&s) == self@.first_seen,
    {
        let mut orig: Vec<(OriginalMessageId, Vec<ForwardLocation>)> = Vec::new();
        let mut i: usize = 0;
        while i < self.originals.len()
            invariant
                i <= self.originals@.len(),
                orig@.len() == i,
                forall|j: int| 0 <= j < i ==> (#[trigger] orig@[j]).0 == self.originals@[j].0
                    && orig@[j].1@ == self.originals@[j].1@,
            decreases self.originals@.len() - i,
        {
            let key = self.originals[i].0;
            let copied = copy_vals(&self.originals[i].1);
            orig.push((key, copied));
            i += 1;
        }
        let s = TrackerSnapshot {
            originals: orig,
            forward_index: copy_vals(&self.forward_index),
            read_originals: copy_vals(&self.read_originals),
            first_seen: copy_vals(&self.first_seen),
        };
        proof {
            assert(map_originals(s.originals@) =~= self.originals_seq());
            self.lemma_view_maps();
            lemma_assoc_map_get(self.originals_seq());
            assert(unique_keys(s.originals@)) by {
                assert(forall|a: int| 0 <= a < s.originals@.len()
                    ==> (#[trigger] s.originals@[a]).0 == self.originals@[a].0);
            }
            assert forall|k: int, a: int, b: int|
                0 <= k < s.originals@.len() && 0 <= a < b < s.originals@[k].1@.len()
                implies (#[trigger] s.originals@[k].1@[a]) != (#[trigger] s.originals@[k].1@[b])
                by {
                let key = self.originals_seq()[k].0;
                assert(self@.originals.contains_key(key)
                    && self@.originals[key] == self.originals_seq()[k].1);
                assert(s.originals@[k].1@ == self@.originals[key]);
            }
        }
        s
    }

    /// Rebuild an index from a snapshot.
    ///
    /// The result is always well formed: every pair of the forward lists is
    /// registered afresh, which also reconstructs the inverse index and the
    /// chat index, and then exactly the persisted first sightings are
    /// restored — an original an older snapshot has no sighting for keeps
    /// none and is never aged out, as before it was saved. A snapshot as
    /// `save` writes it (see [`snapshot_ok`]) restores its four tables
    /// exactly; an inconsistent, hand-altered one is instead normalised,
    /// with the forward lists authoritative.
    pub fn from_snapshot(s: &TrackerSnapshot) -> (t: DuplicateTracker)
        ensures
            t.wf(),
            model_inv(t@),
            t@.read == snapshot_read(s),
            snapshot_ok(s) ==> {
                &&& t@.originals == snapshot_originals(s)
                &&& t@.forward_index == snapshot_forward_index(s)
                &&& t@.first_seen == restore_first_seen(s)
            },
    {
        proof {
            if snapshot_ok(s) {
                lemma_assoc_map_contains(map_originals(s.originals@));
                lemma_assoc_map_get(map_originals(s.originals@));
                lemma_assoc_map_contains(s.first_seen@);
                lemma_assoc_map_get(s.first_seen@);
            }
        }
        let mut t = DuplicateTracker::default();

        // phase one: register every forward under its original
        let mut i: usize = 0;
        while i < s.originals.len()
            invariant
                i <= s.originals@.len(),
                t.wf(),
                t@.read == Set::<OriginalMessageId>::empty(),
                snapshot_ok(s) ==> {
                    &&& t@.originals == assoc_map(map_originals(s.originals@.take(i as int)))
                    &&& t@.forward_index == fi_prefix(s, i as int)
                },
            decreases s.originals@.len() - i,
        {
            let ghost key = s.originals@[i as int].0;
            let ghost list = s.originals@[i as int].1@;
            let k = s.originals[i].0;
            t.ensure_tracked(k, 0);
            proof {
                if snapshot_ok(s) {
                    lemma_assoc_map_contains(map_originals(s.originals@));
                    lemma_assoc_map_get(map_originals(s.originals@));
                    assert(!assoc_map(map_originals(s.originals@.take(i as int))).contains_key(
                        key,
                    )) by {
                        lemma_assoc_map_contains(map_originals(s.originals@.take(i as int)));
                        assert(forall|a: int| 0 <= a < i
                            ==> (#[trigger] map_originals(s.originals@.take(i as int))[a]).0
                                == s.originals@[a].0);
                    }
                    assert(t@.originals == assoc_map(
                        map_originals(s.originals@.take(i as int)),
                    ).insert(key, list.take(0))) by {
                        assert(list.take(0) =~= Seq::<ForwardLocation>::empty());
                    }
                    assert(t@.forward_index == fi_prefix_plus(s, i as int, 0)) by {
                        assert(fi_prefix_plus(s, i as int, 0) =~= fi_prefix(s, i as int));
                    }
                }
            }

            let mut j: usize = 0;
            while j < s.originals[i].1.len()
                invariant
                    i < s.originals@.len(),
                    j <= s.originals@[i as int].1@.len(),
                    key == s.originals@[i as int].0,
                    list == s.originals@[i as int].1@,
                    k == key,
                    t.wf(),
                    t@.read == Set::<OriginalMessageId>::empty(),
                    snapshot_ok(s) ==> {
                        &&& t@.originals == assoc_map(
                            map_originals(s.originals@.take(i as int)),
                        ).insert(key, list.take(j as int))
                        &&& t@.forward_index == fi_prefix_plus(s, i as int, j as int)
                    },
                decreases s.originals@[i as int].1@.len() - j,
            {
                let ghost fwd = list[j as int];
                let f = s.originals[i].1[j];
                proof {
                    if snapshot_ok(s) {
                        lemma_assoc_map_contains(map_originals(s.originals@));
                        lemma_assoc_map_get(map_originals(s.originals@));
                        // the forward has not been registered yet
                        assert(snapshot_originals(s).contains_key(key)
                            && snapshot_originals(s)[key] == list) by {
                            assert(map_originals(s.originals@)[i as int].0 == key);
                            assert(map_originals(s.originals@)[i as int] == (key, list));
                        }
                        assert(list.contains(fwd)) by {
                            assert(list[j as int] == fwd);
                        }
                        assert(snapshot_forward_index(s).contains_key(fwd)
                            && snapshot_forward_index(s)[fwd] == key);
                        assert(!t@.forward_index.contains_key(fwd)) by {
                            if (exists|a: int|
                                0 <= a < i && (#[trigger] s.originals@[a]).1@.contains(fwd)) {
                                let a = choose|a: int|
                                    0 <= a < i && (#[trigger] s.originals@[a]).1@.contains(fwd);
                                assert(map_originals(s.originals@)[a]
                                    == (s.originals@[a].0, s.originals@[a].1@));
                                assert(map_originals(s.originals@)[a].0 == s.originals@[a].0);
                                assert(snapshot_originals(s).contains_key(s.originals@[a].0)
                                    && snapshot_originals(s)[s.originals@[a].0]
                                        == s.originals@[a].1@);
                                assert(snapshot_forward_index(s)[fwd] == s.originals@[a].0);
                                assert(s.originals@[a].0 != key);
                            }
                            if list.take(j as int).contains(fwd) {
                                let b = choose|b: int|
                                    0 <= b < j && list.take(j as int)[b] == fwd;
                                assert(list[b] == fwd && list[j as int] == fwd);
                            }
                        }
                    }
                }
                let ghost before = t@;
                t.register_forward_at(k, f, 0);
                proof {
                    if snapshot_ok(s) {
                        assert(before.originals.contains_key(key));
                        assert(before.originals[key] == list.take(j as int));
                        assert(t@.originals == before.originals.insert(
                            key,
                            list.take(j as int).push(fwd),
                        ));
                        assert(list.take(j as int).push(fwd) =~= list.take(j + 1));
                        assert(t@.originals == assoc_map(
                            map_originals(s.originals@.take(i as int)),
                        ).insert(key, list.take(j + 1))) by {
                            assert(assoc_map(map_originals(s.originals@.take(i as int))).insert(
                                key,
                                list.take(j as int),
                            ).insert(key, list.take(j + 1)) =~= assoc_map(
                                map_originals(s.originals@.take(i as int)),
                            ).insert(key, list.take(j + 1)));
                        }
                        assert(t@.forward_index == fi_prefix_plus(s, i as int, j + 1)) by {
                            assert(forall|b: int| 0 <= b < j
                                ==> list.take(j + 1)[b] == #[trigger] list.take(j as int)[b]);
                            assert forall|ff: ForwardLocation|
                                #[trigger] list.take(j + 1).contains(ff)
                                implies list.take(j as int).contains(ff) || ff == fwd by {
                                let b = choose|b: int|
                                    0 <= b < j + 1 && #[trigger] list.take(j + 1)[b] == ff;
                                if b < j {
                                    assert(list.take(j as int)[b] == ff);
                                }
                            }
                            assert(forall|ff: ForwardLocation|
                                list.take(j as int).contains(ff)
                                    ==> #[trigger] list.take(j + 1).contains(ff));
                            assert(list.take(j + 1).contains(fwd)) by {
                                assert(list.take(j + 1)[j as int] == fwd);
                            }
                            assert(fi_prefix_plus(s, i as int, j + 1)
                                =~= before.forward_index.insert(fwd, key));
                        }
                    }
                }
                j += 1;
            }
            proof {
                if snapshot_ok(s) {
                    assert(list.take(list.len() as int) =~= list);
                    assert(t@.originals == assoc_map(
                        map_originals(s.originals@.take(i + 1)),
                    )) by {
                        assert(map_originals(s.originals@.take(i + 1)) =~= map_originals(
                            s.originals@.take(i as int),
                        ).push((key, list)));
                        lemma_assoc_map_push(map_originals(s.originals@.take(i as int)), key,
                            list);
                    }
                    assert(t@.forward_index == fi_prefix(s, i + 1)) by {
                        assert(fi_prefix_plus(s, i as int, list.len() as int)
                            =~= fi_prefix(s, i + 1));
                    }
                }
            }
            i += 1;
        }
        proof {
            if snapshot_ok(s) {
                lemma_assoc_map_contains(map_originals(s.originals@));
                lemma_assoc_map_get(map_originals(s.originals@));
                assert(s.originals@.take(s.originals@.len() as int) =~= s.originals@);
                assert(t@.originals == snapshot_originals(s));
                assert(t@.forward_index == snapshot_forward_index(s)) by {
                    assert forall|f: ForwardLocation|
                        #[trigger] snapshot_forward_index(s).contains_key(f)
                        implies fi_prefix(s, s.originals@.len() as int).contains_key(f) by {
                        let o = snapshot_forward_index(s)[f];
                        assert(snapshot_originals(s).contains_key(o)
                            && snapshot_originals(s)[o].contains(f));
                        let a = choose|a: int|
                            0 <= a < map_originals(s.originals@).len()
                                && #[trigger] map_originals(s.originals@)[a].0 == o;
                        assert(map_originals(s.originals@)[a].1 == snapshot_originals(s)[o]);
                        assert(s.originals@[a].1@.contains(f));
                    }
                    assert(fi_prefix(s, s.originals@.len() as int)
                        =~= snapshot_forward_index(s));
                }
            }
        }

        // phase two: restore the read set
        let ghost m1 = t@;
        let mut i: usize = 0;
        while i < s.read_originals.len()
            invariant
                i <= s.read_originals@.len(),
                t.wf(),
                t@.originals == m1.originals,
                t@.forward_index == m1.forward_index,
                t@.first_seen == m1.first_seen,
                t@.chat_index == m1.chat_index,
                t@.read == s.read_originals@.take(i as int).to_set(),
            decreases s.read_originals@.len() - i,
        {
            let ghost elem = s.read_originals@[i as int];
            let ghost tk = s.read_originals@.take(i as int);
            let ghost tk1 = s.read_originals@.take(i + 1);
            let _ = t.mark_original_read(&s.read_originals[i]);
            proof {
                assert forall|a: OriginalMessageId| #[trigger] tk1.to_set().contains(a)
                    implies tk.to_set().insert(elem).contains(a) by {
                    let b = choose|b: int| 0 <= b < tk1.len() && tk1[b] == a;
                    if b < tk.len() {
                        assert(tk[b] == a);
                    }
                }
                assert forall|a: OriginalMessageId| tk.to_set().insert(elem).contains(a)
                    implies #[trigger] tk1.to_set().contains(a) by {
                    if a == elem {
                        assert(tk1[tk1.len() - 1] == a);
                    } else {
                        let b = choose|b: int| 0 <= b < tk.len() && tk[b] == a;
                        assert(tk1[b] == a);
                    }
                }
                assert(tk1.to_set() =~= tk.to_set().insert(elem));
            }
            i += 1;
        }
        proof {
            assert(s.read_originals@.take(s.read_originals@.len() as int)
                =~= s.read_originals@);
        }

        // phase three: restore exactly the persisted sightings, dropping
        // the placeholder stamps of phase one — an original the snapshot
        // has no sighting for keeps none
        let ghost m2 = t@;
        let mut new_fs: Vec<(OriginalMessageId, u64)> = Vec::new();
        let mut i: usize = 0;
        while i < s.first_seen.len()
            invariant
                i <= s.first_seen@.len(),
                t.wf(),
                m2 == t@,
                unique_keys(new_fs@),
                forall|j: int| 0 <= j < new_fs@.len()
                    ==> m2.originals.contains_key((#[trigger] new_fs@[j]).0),
                snapshot_ok(s) ==> assoc_map(new_fs@) == Map::new(
                    |o: OriginalMessageId| assoc_map(s.first_seen@.take(i as int)).contains_key(o)
                        && m2.originals.contains_key(o),
                    |o: OriginalMessageId| assoc_map(s.first_seen@.take(i as int))[o],
                ),
            decreases s.first_seen@.len() - i,
        {
            let ghost pair = s.first_seen@[i as int];
            let ghost tk = s.first_seen@.take(i as int);
            proof {
                assert(s.first_seen@.take(i + 1) =~= tk.push(pair));
                lemma_assoc_map_push(tk, pair.0, pair.1);
                lemma_assoc_map_contains(new_fs@);
                lemma_assoc_map_contains(t.originals_seq());
                t.lemma_view_maps();
                if snapshot_ok(s) {
                    assert(!assoc_map(tk).contains_key(pair.0)) by {
                        lemma_assoc_map_contains(tk);
                        assert(forall|b: int| 0 <= b < i ==> tk[b] == s.first_seen@[b]);
                    }
                }
            }
            let p = (s.first_seen[i].0, s.first_seen[i].1);
            let known = match find_original_idx(&t.originals, &p.0) {
                Some(idx) => {
                    proof {
                        assert(t.originals_seq()[idx as int].0 == pair.0);
                    }
                    true
                },
                None => {
                    proof {
                        assert(forall|j: int| 0 <= j < t.originals_seq().len()
                            ==> (#[trigger] t.originals_seq()[j]).0 != pair.0);
                    }
                    false
                },
            };
            assert(known == m2.originals.contains_key(pair.0));
            if known && find_first_seen_idx(&new_fs, &p.0).is_none() {
                let ghost before = new_fs@;
                new_fs.push(p);
                proof {
                    lemma_assoc_map_push(before, pair.0, pair.1);
                    if snapshot_ok(s) {
                        assert(assoc_map(new_fs@) =~= Map::new(
                            |o: OriginalMessageId| assoc_map(s.first_seen@.take(i + 1)).contains_key(
                                o,
                            ) && m2.originals.contains_key(o),
                            |o: OriginalMessageId| assoc_map(s.first_seen@.take(i + 1))[o],
                        ));
                    }
                }
            } else {
                proof {
                    if snapshot_ok(s) {
                        if known {
                            // only reachable for a key repeated in the
                            // snapshot, which a consistent one never has
                            assert(assoc_map(new_fs@).contains_key(pair.0));
                            assert(assoc_map(tk).contains_key(pair.0));
                        } else {
                            assert(assoc_map(new_fs@) =~= Map::new(
                                |o: OriginalMessageId| assoc_map(
                                    s.first_seen@.take(i + 1),
                                ).contains_key(o) && m2.originals.contains_key(o),
                                |o: OriginalMessageId| assoc_map(s.first_seen@.take(i + 1))[o],
                            ));
                        }
                    }
                }
            }
            i += 1;
        }
        let ghost gfs = new_fs@;
        t.first_seen = new_fs;
        proof {
            assert(t@.originals == m2.originals && t@.forward_index == m2.forward_index
                && t@.read == m2.read && t@.chat_index == m2.chat_index);
            assert(t@.first_seen == assoc_map(gfs));
            assert forall|o: OriginalMessageId| #[trigger] t@.first_seen.contains_key(o)
                implies t@.originals.contains_key(o) by {
                lemma_assoc_map_contains(gfs);
                let j = choose|j: int| 0 <= j < gfs.len() && #[trigger] gfs[j].0 == o;
                assert(m2.originals.contains_key(gfs[j].0));
            }
            assert(t@.first_seen.dom().finite()) by {
                lemma_assoc_map_len(gfs);
            }
            assert(t.wf());
            if snapshot_ok(s) {
                assert(s.first_seen@.take(s.first_seen@.len() as int) =~= s.first_seen@);
                assert(t@.first_seen =~= restore_first_seen(s));
            }
            t.lemma_wf_model_inv();
        }
        t
    }

    /// Purge every original older than `max_age_secs`, measured against the
    /// wall clock.
    pub fn cleanup(&mut self, max_age_secs: u64)
        requires
            old(self).wf(),
        ensures
            final(self).wf(),
            exists|cutoff: u64| final(self)@ == spec_cleanup(old(self)@, cutoff),
    {
        let now = epoch_secs();
        let cutoff: u64 = if now >= max_age_secs {
            now - max_age_secs
        } else {
            0
        };
        self.cleanup_before(cutoff);
        proof {
            assert(self@ == spec_cleanup(old(self)@, cutoff));
        }
    }

    /// Every forward currently known for an original, in registration
    /// order; empty for an untracked original.
    pub fn forwards_of(&self, original: &OriginalMessageId) -> (r: Vec<ForwardLocation>)
        requires
            self.wf(),
        ensures
            r@ == spec_forwards_of(self@, *original),
    {
        proof {
            lemma_assoc_map_contains(self.originals_seq());
            lemma_assoc_map_get(self.originals_seq());
            self.lemma_view_maps();
        }
        match find_original_idx(&self.originals, original) {
            Some(i) => {
                proof {
                    assert(self.originals_seq()[i as int].0 == *original);
                    assert(self@.originals.contains_key(*original));
                    assert(self@.originals[*original] == self.originals_seq()[i as int].1);
                }
                copy_vals(&self.originals[i].1)
            },
            None => {
                proof {
                    assert(forall|j: int| 0 <= j < self.originals_seq().len()
                        ==> (#[trigger] self.originals_seq()[j]).0 != *original);
                    assert(!self@.originals.contains_key(*original));
                }
                Vec::new()
            },
        }
    }

    /// How many originals are tracked.
    pub fn originals_count(&self) -> (r: usize)
        requires
            self.wf(),
        ensures
            r == self@.originals.dom().len(),
    {
        proof {
            self.lemma_view_maps();
            lemma_assoc_map_len(self.originals_seq());
        }
        self.originals.len()
    }

    /// How many forwards are linked.
    pub fn forward_index_count(&self) -> (r: usize)
        requires
            self.wf(),
        ensures
            r == self@.forward_index.dom().len(),
    {
        proof {
            lemma_assoc_map_len(self.forward_index@);
        }
        self.forward_index.len()
    }

    /// How many originals are marked read.
    pub fn read_count(&self) -> (r: usize)
        requires
            self.wf(),
        ensures
            r == self@.read.len(),
    {
        proof {
            assert(self.read_originals@.no_duplicates());
            self.read_originals@.unique_seq_to_set();
        }
        self.read_originals.len()
    }

    /// How many originals carry a first sighting.
    pub fn first_seen_count(&self) -> (r: usize)
        requires
            self.wf(),
        ensures
            r == self@.first_seen.dom().len(),
    {
        proof {
            lemma_assoc_map_len(self.first_seen@);
        }
        self.first_seen.len()
    }

    /// How many chats have at least one registered forward.
    pub fn chat_count(&self) -> (r: usize)
        requires
            self.wf(),
        ensures
            r == self@.chat_index.dom().len(),
    {
        proof {
            self.lemma_view_maps();
            lemma_assoc_map_len(self.chat_seq());
        }
        self.chat_index.len()
    }

    /// The originals of forwards in `chat_id` with message id at most
    /// `max_id` that are not yet marked read — "which originals did the
    /// user just read by reading up to `max_id` in this chat?". Each
    /// original appears exactly once, even when several of its copies sit
    /// in the chat. Consults only the per-chat index, never the full
    /// inverse index.
    pub fn find_read_originals_in_chat(&self, chat_id: i64, max_id: i32) -> (r: Vec<
        OriginalMessageId,
    >)
        requires
            self.wf(),
        ensures
            r@ == spec_find_read(chat_entries_of(self@, chat_id), self@.read, max_id),
    {
        proof {
            lemma_assoc_map_contains(self.chat_seq());
            lemma_assoc_map_get(self.chat_seq());
            self.lemma_view_maps();
        }
        let mut r: Vec<OriginalMessageId> = Vec::new();
        match find_chat_idx(&self.chat_index, chat_id) {
            None => {
                assert(chat_entries_of(self@, chat_id) =~= Seq::<(i32, OriginalMessageId)>::empty());
            },
            Some(ci) => {
                let ghost ge = self.chat_index@[ci as int].1@;
                proof {
                    assert(self.chat_seq()[ci as int].0 == chat_id);
                    assert(self@.chat_index.contains_key(chat_id));
                    assert(self@.chat_index[chat_id] == self.chat_seq()[ci as int].1);
                }
                assert(ge == chat_entries_of(self@, chat_id));
                let entries = &self.chat_index[ci].1;
                let mut i: usize = 0;
                while i < entries.len()
                    invariant
                        i <= entries@.len(),
                        ge == entries@,
                        r@ == spec_find_read(ge.take(i as int), self@.read, max_id),
                        forall|a: OriginalMessageId| self@.read.contains(a)
                            == self.read_originals@.contains(a),
                    decreases entries@.len() - i,
                {
                    proof {
                        assert(ge.take(i + 1).drop_last() =~= ge.take(i as int));
                        assert(ge.take(i + 1).last() == ge[i as int]);
                    }
                    let e = entries[i];
                    if e.0 <= max_id && !contains_id(&self.read_originals, &e.1)
                        && !contains_id(&r, &e.1) {
                        r.push(e.1);
                    }
                    i += 1;
                }
                proof {
                    assert(ge.take(ge.len() as int) =~= ge);
                }
            },
        }
        r
    }
}

} // verus!

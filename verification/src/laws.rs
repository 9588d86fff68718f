//! The laws of the duplicate index, proved once and for all over the model.
//!
//! Each lemma here states a property of the index that spans several
//! operations: idempotent registration, the original/forward bijection, the
//! meaning of a chat-scoped read lookup, and what cleanup purges and what it
//! retains. The per-operation contracts live on the operations themselves.

use vstd::prelude::*;

use crate::snapshot::{TrackerSnapshot, restore_first_seen, snapshot_first_seen,
    snapshot_originals};
use crate::tracker::{DuplicateTracker, TrackerModel, OriginalMessageId, ForwardLocation,
    model_inv, spec_register, spec_cleanup, spec_find_read, chat_entries_of, dead_set,
    surviving_entries, lemma_surviving_entries};

verus! {

/// Round-trip durability, the aging leg: a snapshot whose tables are those
/// of a consistent model restores the first sightings verbatim — every
/// sighting belongs to a tracked original, so the restriction to tracked
/// originals keeps them all. Together with the contracts of `to_snapshot`
/// and `from_snapshot` this pins the save/load round trip down: all four
/// tables come back exactly.
pub proof fn lemma_round_trip_first_seen(s: &TrackerSnapshot, m: TrackerModel)
    requires
        model_inv(m),
        snapshot_originals(s) == m.originals,
        snapshot_first_seen(s) == m.first_seen,
    ensures
        restore_first_seen(s) == m.first_seen,
{
    assert(restore_first_seen(s) =~= m.first_seen);
}

/// Registering the same (original, forward) pair twice is the same as
/// registering it once, and afterwards the original carries exactly one
/// entry for that forward. The forward must not already belong to a
/// different original, for then it keeps its first original and the pair
/// is never linked.
pub proof fn lemma_register_idempotent(
    m: TrackerModel,
    o: OriginalMessageId,
    f: ForwardLocation,
    t1: u64,
    t2: u64,
)
    requires
        model_inv(m),
        m.forward_index.contains_key(f) ==> m.forward_index[f] == o,
    ensures
        spec_register(spec_register(m, o, f, t1), o, f, t2) == spec_register(m, o, f, t1),
        spec_register(m, o, f, t1).originals.contains_key(o),
        spec_register(m, o, f, t1).originals[o].contains(f),
        forall|i: int, j: int|
            0 <= i < j < spec_register(m, o, f, t1).originals[o].len()
                ==> spec_register(m, o, f, t1).originals[o][i]
                    != spec_register(m, o, f, t1).originals[o][j],
{
    let m1 = spec_register(m, o, f, t1);
    let prev = if m.originals.contains_key(o) {
        m.originals[o]
    } else {
        Seq::<ForwardLocation>::empty()
    };
    assert(!m.forward_index.contains_key(f) ==> !prev.contains(f)) by {
        if prev.contains(f) {
            assert(m.originals.contains_key(o) && m.originals[o].contains(f));
        }
    }
    assert(m1.originals[o].contains(f)) by {
        if m.forward_index.contains_key(f) {
            assert(m.originals[m.forward_index[f]].contains(f));
        } else {
            assert(m1.originals[o][prev.len() as int] == f);
        }
    }
    assert forall|i: int, j: int| 0 <= i < j < m1.originals[o].len()
        implies m1.originals[o][i] != m1.originals[o][j] by {
        if m.forward_index.contains_key(f) {
            assert(m.originals.contains_key(o) && m1.originals[o] == m.originals[o]);
        } else {
            if j == prev.len() {
                assert(m1.originals[o][i] == prev[i]);
                assert(prev.contains(prev[i]));
            } else {
                assert(m1.originals[o][i] == prev[i] && m1.originals[o][j] == prev[j]);
                assert(m.originals.contains_key(o) ==> prev[i] != prev[j]);
            }
        }
    }
    // the second registration finds both the original and the forward known
    let m2 = spec_register(m1, o, f, t2);
    assert(m1.first_seen.contains_key(o));
    assert(m1.forward_index.contains_key(f));
    assert(m1.originals.insert(o, m1.originals[o]) =~= m1.originals);
    assert(m2 =~= m1);
}

/// The bijection invariant: in a consistent index each forward listed under
/// an original resolves back to that exact original, and each linked forward
/// is listed under its original — in both directions. Every operation of the
/// index preserves consistency, so this holds after any sequence of them.
pub proof fn lemma_bijection(m: TrackerModel)
    requires
        model_inv(m),
    ensures
        forall|o: OriginalMessageId, f: ForwardLocation|
            (m.originals.contains_key(o) && #[trigger] m.originals[o].contains(f))
                <==> (#[trigger] m.forward_index.contains_key(f) && m.forward_index[f] == o),
{
}

/// The bijection invariant on a live index value: every well-formed
/// tracker — and the constructor makes one, and every operation's contract
/// hands one back — satisfies it, so it holds after any sequence of
/// register, mark, cleanup and restore operations.
pub proof fn lemma_tracker_bijection(t: &DuplicateTracker)
    requires
        t.wf(),
    ensures
        forall|o: OriginalMessageId, f: ForwardLocation|
            (t@.originals.contains_key(o) && #[trigger] t@.originals[o].contains(f))
                <==> (#[trigger] t@.forward_index.contains_key(f) && t@.forward_index[f] == o),
{
    t.lemma_wf_model_inv();
    lemma_bijection(t@);
}

/// What a chat-scoped read lookup returns: exactly the not-yet-read
/// originals that have a forward in that chat at or below the high-water
/// mark — each exactly once, however many of its copies the chat holds.
/// Marking an original read therefore excludes it from all later lookups.
pub proof fn lemma_find_read_in_chat(m: TrackerModel, c: i64, max_id: i32)
    requires
        model_inv(m),
    ensures
        forall|o: OriginalMessageId|
            #[trigger] spec_find_read(chat_entries_of(m, c), m.read, max_id).contains(o)
                <==> !m.read.contains(o) && exists|mid: i32|
                    mid <= max_id && #[trigger] m.forward_index.contains_key(
                        ForwardLocation { chat_id: c, message_id: mid },
                    ) && m.forward_index[ForwardLocation { chat_id: c, message_id: mid }] == o,
        forall|i: int, j: int|
            0 <= i < j < spec_find_read(chat_entries_of(m, c), m.read, max_id).len()
                ==> spec_find_read(chat_entries_of(m, c), m.read, max_id)[i]
                    != spec_find_read(chat_entries_of(m, c), m.read, max_id)[j],
{
    let entries = chat_entries_of(m, c);
    lemma_spec_find_read_membership(entries, m.read, max_id);
    assert forall|o: OriginalMessageId|
        #[trigger] spec_find_read(entries, m.read, max_id).contains(o)
        implies !m.read.contains(o) && exists|mid: i32|
            mid <= max_id && #[trigger] m.forward_index.contains_key(
                ForwardLocation { chat_id: c, message_id: mid },
            ) && m.forward_index[ForwardLocation { chat_id: c, message_id: mid }] == o by {
        let i = choose|i: int|
            0 <= i < entries.len() && entries[i].0 <= max_id && !m.read.contains(entries[i].1)
                && entries[i].1 == o;
        assert(m.chat_index.contains_key(c));
        assert(m.forward_index.contains_key(
            crate::tracker::entry_loc(c, entries[i]),
        ) && m.forward_index[crate::tracker::entry_loc(c, entries[i])] == entries[i].1);
        assert(entries[i].0 <= max_id && m.forward_index.contains_key(
            ForwardLocation { chat_id: c, message_id: entries[i].0 },
        ) && m.forward_index[ForwardLocation { chat_id: c, message_id: entries[i].0 }] == o);
    }
    assert forall|o: OriginalMessageId|
        !m.read.contains(o) && (exists|mid: i32|
            mid <= max_id && #[trigger] m.forward_index.contains_key(
                ForwardLocation { chat_id: c, message_id: mid },
            ) && m.forward_index[ForwardLocation { chat_id: c, message_id: mid }] == o)
        implies #[trigger] spec_find_read(entries, m.read, max_id).contains(o) by {
        let mid = choose|mid: i32|
            mid <= max_id && #[trigger] m.forward_index.contains_key(
                ForwardLocation { chat_id: c, message_id: mid },
            ) && m.forward_index[ForwardLocation { chat_id: c, message_id: mid }] == o;
        let f = ForwardLocation { chat_id: c, message_id: mid };
        assert(m.chat_index.contains_key(f.chat_id)
            && m.chat_index[f.chat_id].contains((f.message_id, m.forward_index[f])));
        let i = choose|i: int|
            0 <= i < m.chat_index[c].len() && m.chat_index[c][i] == (mid, o);
        assert(entries[i].0 <= max_id && !m.read.contains(entries[i].1) && entries[i].1 == o);
    }
}

/// Membership in a chat-scoped lookup, at the level of raw chat entries:
/// an original is listed exactly when some entry qualifies it, and listed
/// only once however many entries do.
proof fn lemma_spec_find_read_membership(
    entries: Seq<(i32, OriginalMessageId)>,
    read: Set<OriginalMessageId>,
    max_id: i32,
)
    ensures
        forall|o: OriginalMessageId|
            #[trigger] spec_find_read(entries, read, max_id).contains(o) <==> exists|i: int|
                0 <= i < entries.len() && (#[trigger] entries[i]).0 <= max_id
                    && !read.contains(entries[i].1) && entries[i].1 == o,
        forall|i: int, j: int|
            0 <= i < j < spec_find_read(entries, read, max_id).len()
                ==> spec_find_read(entries, read, max_id)[i]
                    != spec_find_read(entries, read, max_id)[j],
    decreases entries.len(),
{
    let r = spec_find_read(entries, read, max_id);
    if entries.len() == 0 {
        assert(forall|o: OriginalMessageId| !r.contains(o));
    } else {
        let rest = spec_find_read(entries.drop_last(), read, max_id);
        lemma_spec_find_read_membership(entries.drop_last(), read, max_id);
        assert forall|o: OriginalMessageId| #[trigger] r.contains(o) implies exists|i: int|
            0 <= i < entries.len() && (#[trigger] entries[i]).0 <= max_id
                && !read.contains(entries[i].1) && entries[i].1 == o by {
            let k = choose|k: int| 0 <= k < r.len() && r[k] == o;
            if k < rest.len() {
                assert(rest[k] == o);
                assert(rest.contains(o));
                let i = choose|i: int|
                    0 <= i < entries.drop_last().len()
                        && (#[trigger] entries.drop_last()[i]).0 <= max_id
                        && !read.contains(entries.drop_last()[i].1)
                        && entries.drop_last()[i].1 == o;
                assert(entries[i] == entries.drop_last()[i]);
                assert((entries[i]).0 <= max_id && !read.contains(entries[i].1)
                    && entries[i].1 == o);
            } else {
                assert(o == entries.last().1);
                assert((entries[entries.len() - 1]).0 <= max_id
                    && !read.contains(entries[entries.len() - 1].1)
                    && entries[entries.len() - 1].1 == o);
            }
        }
        assert forall|o: OriginalMessageId|
            (exists|i: int|
                0 <= i < entries.len() && (#[trigger] entries[i]).0 <= max_id
                    && !read.contains(entries[i].1) && entries[i].1 == o)
            implies #[trigger] r.contains(o) by {
            let i = choose|i: int|
                0 <= i < entries.len() && (#[trigger] entries[i]).0 <= max_id
                    && !read.contains(entries[i].1) && entries[i].1 == o;
            if i < entries.len() - 1 {
                assert(entries.drop_last()[i] == entries[i]);
                assert((entries.drop_last()[i]).0 <= max_id
                    && !read.contains(entries.drop_last()[i].1)
                    && entries.drop_last()[i].1 == o);
                assert(rest.contains(o));
                let k = choose|k: int| 0 <= k < rest.len() && rest[k] == o;
                assert(r[k] == o);
            } else {
                assert(entries.last().0 <= max_id && !read.contains(entries.last().1));
                if rest.contains(o) {
                    let k = choose|k: int| 0 <= k < rest.len() && rest[k] == o;
                    assert(r[k] == o);
                } else {
                    assert(r[r.len() - 1] == o);
                }
            }
        }
        assert forall|i: int, j: int| 0 <= i < j < r.len() implies r[i] != r[j] by {
            if j == r.len() - 1 && r.len() > rest.len() {
                assert(r[j] == entries.last().1);
                assert(!rest.contains(entries.last().1));
                assert(r[i] == rest[i]);
                assert(rest.contains(rest[i]));
            } else {
                assert(r[i] == rest[i] && r[j] == rest[j]);
            }
        }
    }
}

/// Cleanup purges an aged-out original from all five structures at once.
pub proof fn lemma_cleanup_purges(m: TrackerModel, cutoff: u64, o: OriginalMessageId)
    requires
        model_inv(m),
        m.first_seen.contains_key(o),
        m.first_seen[o] < cutoff,
    ensures
        !spec_cleanup(m, cutoff).originals.contains_key(o),
        !spec_cleanup(m, cutoff).first_seen.contains_key(o),
        !spec_cleanup(m, cutoff).read.contains(o),
        forall|f: ForwardLocation| #[trigger] spec_cleanup(m, cutoff).forward_index.contains_key(f)
            ==> spec_cleanup(m, cutoff).forward_index[f] != o,
        forall|c: i64, i: int|
            spec_cleanup(m, cutoff).chat_index.contains_key(c)
                && 0 <= i < spec_cleanup(m, cutoff).chat_index[c].len()
                ==> (#[trigger] spec_cleanup(m, cutoff).chat_index[c][i]).1 != o,
{
    let dead = dead_set(m, cutoff);
    let mc = spec_cleanup(m, cutoff);
    assert(dead.contains(o));
    assert forall|c: i64, i: int|
        mc.chat_index.contains_key(c) && 0 <= i < mc.chat_index[c].len()
        implies (#[trigger] mc.chat_index[c][i]).1 != o by {
        lemma_surviving_entries(m.chat_index[c], dead);
        assert(surviving_entries(m.chat_index[c], dead).contains(mc.chat_index[c][i]));
    }
}

/// Cleanup never touches an original that carries no sighting — the state
/// an older restored snapshot leaves behind: such an original is outside
/// every age bound, exactly as it was before it was ever saved.
pub proof fn lemma_cleanup_skips_unsighted(m: TrackerModel, cutoff: u64, o: OriginalMessageId)
    requires
        model_inv(m),
        m.originals.contains_key(o),
        !m.first_seen.contains_key(o),
    ensures
        spec_cleanup(m, cutoff).originals.contains_key(o),
        spec_cleanup(m, cutoff).originals[o] == m.originals[o],
        !spec_cleanup(m, cutoff).first_seen.contains_key(o),
        spec_cleanup(m, cutoff).read.contains(o) == m.read.contains(o),
        forall|f: ForwardLocation| #[trigger] m.originals[o].contains(f)
            ==> spec_cleanup(m, cutoff).forward_index.contains_key(f)
                && spec_cleanup(m, cutoff).forward_index[f] == o,
{
    let dead = dead_set(m, cutoff);
    assert(!dead.contains(o));
    assert forall|f: ForwardLocation| #[trigger] m.originals[o].contains(f)
        implies spec_cleanup(m, cutoff).forward_index.contains_key(f)
            && spec_cleanup(m, cutoff).forward_index[f] == o by {
        assert(m.originals.contains_key(o) && m.originals[o].contains(f));
    }
}

/// Cleanup leaves an original first seen at or after the cutoff entirely
/// untouched: its forward list, its read bit, its first sighting and the
/// links of all its forwards survive verbatim — however large the age
/// bound was.
pub proof fn lemma_cleanup_retains(m: TrackerModel, cutoff: u64, o: OriginalMessageId)
    requires
        model_inv(m),
        m.first_seen.contains_key(o),
        m.first_seen[o] >= cutoff,
    ensures
        spec_cleanup(m, cutoff).originals.contains_key(o),
        spec_cleanup(m, cutoff).originals[o] == m.originals[o],
        spec_cleanup(m, cutoff).first_seen.contains_key(o),
        spec_cleanup(m, cutoff).first_seen[o] == m.first_seen[o],
        spec_cleanup(m, cutoff).read.contains(o) == m.read.contains(o),
        forall|f: ForwardLocation| #[trigger] m.originals[o].contains(f)
            ==> spec_cleanup(m, cutoff).forward_index.contains_key(f)
                && spec_cleanup(m, cutoff).forward_index[f] == o,
{
    let dead = dead_set(m, cutoff);
    assert(!dead.contains(o));
    assert forall|f: ForwardLocation| #[trigger] m.originals[o].contains(f)
        implies spec_cleanup(m, cutoff).forward_index.contains_key(f)
            && spec_cleanup(m, cutoff).forward_index[f] == o by {
        assert(m.originals.contains_key(o) && m.originals[o].contains(f));
    }
}

} // verus!

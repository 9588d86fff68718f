//! The update planner: phase one of the two-phase pipeline.
//!
//! A caller that owns the transport reduces each inbound update to an
//! [`UpdateEvent`] of plain values and hands it here together with exclusive
//! access to the index. Planning runs to completion in memory — no network
//! call, no suspension — and returns one [`Action`] for the executor to
//! carry out afterwards, so the index is never locked across a remote call.

use vstd::prelude::*;

use crate::tracker::{DuplicateTracker, ForwardLocation, OriginalMessageId, TrackerModel,
    chat_entries_of, spec_find_read, spec_forwards_of, spec_register};

verus! {

/// A message's forward-origin header, reduced to the two fields the index
/// cares about; either may be missing.
#[derive(Clone, Copy)]
pub struct ForwardHeader {
    /// The chat the message was authored in.
    pub from_peer_id: Option<i64>,
    /// The message id of the authored original (a channel post).
    pub channel_post: Option<i32>,
}

/// What the transport could resolve about the chat an event came from.
pub struct PeerInfo {
    /// Whether the peer is a broadcast channel (it takes the channel form
    /// of the remote mark-read call).
    pub channel: bool,
    /// A human-readable name for diagnostics.
    pub name: String,
}

/// An inbound new-message event, as plain values.
pub struct NewMessageEvent {
    /// The chat the message arrived in.
    pub chat_id: i64,
    /// The message's id within that chat.
    pub message_id: i32,
    /// Its forward-origin header, if it carries one.
    pub forward: Option<ForwardHeader>,
    /// The resolved peer of the chat, if the transport could resolve one.
    pub peer: Option<PeerInfo>,
}

/// One inbound event, after the transport has resolved ids.
pub enum UpdateEvent {
    /// A message arrived.
    NewMessage(NewMessageEvent),
    /// The account read a chat up to the given high-water mark; both the
    /// plain and the channel variant of the protocol reduce to this.
    ReadHistory { chat_id: i64, max_id: i32 },
    /// Anything else; planning ignores it.
    Other,
}

/// What the executor should do after planning, consumed exactly once.
pub enum Action {
    /// No follow-up work.
    Nothing,
    /// Remember this chat's peer so it can be marked read later.
    CachePeer { chat_id: i64, channel: bool, name: String },
    /// Mark these forward locations read remotely.
    MarkForwards { forwards: Vec<ForwardLocation> },
}

/// The original a forward header points at, if it names both a source chat
/// and a source message.
pub open spec fn spec_extract_original(h: ForwardHeader) -> Option<OriginalMessageId> {
    match (h.from_peer_id, h.channel_post) {
        (Some(p), Some(c)) => Some(OriginalMessageId { peer_id: p, message_id: c }),
        _ => None,
    }
}

/// Try to extract the original message identity from a forward header.
pub fn extract_original(h: &ForwardHeader) -> (r: Option<OriginalMessageId>)
    ensures
        r == spec_extract_original(*h),
{
    match (h.from_peer_id, h.channel_post) {
        (Some(p), Some(c)) => Some(OriginalMessageId { peer_id: p, message_id: c }),
        _ => None,
    }
}

/// Truncate a string to at most `max` characters, appending "..." when it
/// was cut.
pub fn truncate(s: &str, max: usize) -> (r: String)
    ensures
        r@ == (if s@.len() <= max {
            s@
        } else {
            s@.subrange(0, max as int) + "..."@
        }),
{
    let n = s.unicode_len();
    if n <= max {
        s.to_owned()
    } else {
        let head = s.substring_char(0, max);
        head.to_owned().concat("...")
    }
}

/// The forwards of the given list that the user has not just read natively:
/// everything but those in `chat_id` at or below `max_id`, in order.
pub open spec fn spec_other_forwards(
    fwds: Seq<ForwardLocation>,
    chat_id: i64,
    max_id: i32,
) -> Seq<ForwardLocation>
    decreases fwds.len(),
{
    if fwds.len() == 0 {
        Seq::empty()
    } else {
        let rest = spec_other_forwards(fwds.drop_last(), chat_id, max_id);
        let f = fwds.last();
        if f.chat_id == chat_id && f.message_id <= max_id {
            rest
        } else {
            rest.push(f)
        }
    }
}

/// All forwards to propagate a read in `chat_id` up to `max_id` to: for
/// each newly read original in order, its forwards outside the part of the
/// chat just read.
pub open spec fn spec_collect_propagation(
    m: TrackerModel,
    os: Seq<OriginalMessageId>,
    chat_id: i64,
    max_id: i32,
) -> Seq<ForwardLocation>
    decreases os.len(),
{
    if os.len() == 0 {
        Seq::empty()
    } else {
        spec_collect_propagation(m, os.drop_last(), chat_id, max_id) + spec_other_forwards(
            spec_forwards_of(m, os.last()),
            chat_id,
            max_id,
        )
    }
}

/// The index after a read event: every original newly found read in the
/// chat joins the read set; nothing else moves.
pub open spec fn spec_after_read(m: TrackerModel, chat_id: i64, max_id: i32) -> TrackerModel {
    TrackerModel {
        originals: m.originals,
        forward_index: m.forward_index,
        read: m.read.union(
            spec_find_read(chat_entries_of(m, chat_id), m.read, max_id).to_set(),
        ),
        first_seen: m.first_seen,
        chat_index: m.chat_index,
    }
}

/// What planning a read event must produce: the index transition above,
/// and a mark-forwards action exactly when there is something to propagate.
pub open spec fn read_plan_ok(
    m0: TrackerModel,
    m1: TrackerModel,
    chat_id: i64,
    max_id: i32,
    a: Action,
) -> bool {
    let found = spec_find_read(chat_entries_of(m0, chat_id), m0.read, max_id);
    let coll = spec_collect_propagation(m0, found, chat_id, max_id);
    &&& m1 == spec_after_read(m0, chat_id, max_id)
    &&& match a {
        Action::MarkForwards { forwards } => forwards@ == coll && coll.len() > 0,
        Action::Nothing => coll.len() == 0,
        Action::CachePeer { .. } => false,
    }
}

/// What planning a new message must produce: an untouched index and no
/// action for an untrackable message; otherwise the forward registered and
/// the resolved peer offered for caching.
pub open spec fn new_message_plan_ok(
    m0: TrackerModel,
    m1: TrackerModel,
    ev: NewMessageEvent,
    a: Action,
) -> bool {
    match ev.forward {
        None => m1 == m0 && a matches Action::Nothing,
        Some(h) => match spec_extract_original(h) {
            None => m1 == m0 && a matches Action::Nothing,
            Some(orig) => {
                let fwd = ForwardLocation { chat_id: ev.chat_id, message_id: ev.message_id };
                &&& exists|now: u64| m1 == spec_register(m0, orig, fwd, now)
                &&& match ev.peer {
                    Some(p) => a matches Action::CachePeer { chat_id, channel, name }
                        && chat_id == ev.chat_id && channel == p.channel && name@ == p.name@,
                    None => a matches Action::Nothing,
                }
            },
        },
    }
}

/// What planning must produce for each kind of inbound event.
pub open spec fn plan_matches(
    m0: TrackerModel,
    m1: TrackerModel,
    event: UpdateEvent,
    a: Action,
) -> bool {
    match event {
        UpdateEvent::NewMessage(ev) => new_message_plan_ok(m0, m1, ev, a),
        UpdateEvent::ReadHistory { chat_id, max_id } => read_plan_ok(m0, m1, chat_id, max_id, a),
        UpdateEvent::Other => m1 == m0 && a matches Action::Nothing,
    }
}

/// Phase one: inspect one inbound event and compute what has to happen,
/// touching only the index — no network work.
pub fn plan_update(event: &UpdateEvent, tracker: &mut DuplicateTracker) -> (a: Action)
    requires
        old(tracker).wf(),
    ensures
        final(tracker).wf(),
        plan_matches(old(tracker)@, final(tracker)@, *event, a),
{
    match event {
        UpdateEvent::NewMessage(ev) => plan_new_message(ev, tracker),
        UpdateEvent::ReadHistory { chat_id, max_id } => plan_read_event(
            *chat_id,
            *max_id,
            tracker,
        ),
        UpdateEvent::Other => Action::Nothing,
    }
}

/// Plan an incoming message: register a trackable forward and offer the
/// resolved peer for caching.
fn plan_new_message(ev: &NewMessageEvent, tracker: &mut DuplicateTracker) -> (a: Action)
    requires
        old(tracker).wf(),
    ensures
        final(tracker).wf(),
        new_message_plan_ok(old(tracker)@, final(tracker)@, *ev, a),
{
    let header = match &ev.forward {
        Some(h) => h,
        None => {
            return Action::Nothing;
        },
    };
    let original = match extract_original(header) {
        Some(o) => o,
        None => {
            return Action::Nothing;
        },
    };
    let forward = ForwardLocation { chat_id: ev.chat_id, message_id: ev.message_id };
    let _ = tracker.register_forward(original, forward);
    match &ev.peer {
        Some(p) => Action::CachePeer {
            chat_id: ev.chat_id,
            channel: p.channel,
            name: p.name.clone(),
        },
        None => Action::Nothing,
    }
}

/// Plan a read event: find the originals the user just read in this chat,
/// mark them read, and gather every copy elsewhere that should follow.
fn plan_read_event(chat_id: i64, max_id: i32, tracker: &mut DuplicateTracker) -> (a: Action)
    requires
        old(tracker).wf(),
    ensures
        final(tracker).wf(),
        read_plan_ok(old(tracker)@, final(tracker)@, chat_id, max_id, a),
{
    let ghost m0 = tracker@;
    let originals = tracker.find_read_originals_in_chat(chat_id, max_id);
    let ghost found = spec_find_read(chat_entries_of(m0, chat_id), m0.read, max_id);
    if originals.is_empty() {
        proof {
            assert(found.to_set() =~= Set::<OriginalMessageId>::empty());
            assert(m0.read.union(found.to_set()) =~= m0.read);
            assert(tracker@ =~= spec_after_read(m0, chat_id, max_id));
        }
        return Action::Nothing;
    }

    let mut all_forwards: Vec<ForwardLocation> = Vec::new();
    let mut k: usize = 0;
    while k < originals.len()
        invariant
            k <= originals@.len(),
            originals@ == found,
            tracker.wf(),
            tracker@.originals == m0.originals,
            tracker@.forward_index == m0.forward_index,
            tracker@.first_seen == m0.first_seen,
            tracker@.chat_index == m0.chat_index,
            tracker@.read == m0.read.union(found.take(k as int).to_set()),
            all_forwards@ == spec_collect_propagation(m0, found.take(k as int), chat_id, max_id),
        decreases originals@.len() - k,
    {
        let ghost elem = found[k as int];
        let ghost tk = found.take(k as int);
        let ghost tk1 = found.take(k + 1);
        let fwds = tracker.mark_original_read(&originals[k]);
        proof {
            assert forall|x: OriginalMessageId| #[trigger] tk1.to_set().contains(x)
                implies tk.to_set().insert(elem).contains(x) by {
                let b = choose|b: int| 0 <= b < tk1.len() && tk1[b] == x;
                if b < tk.len() {
                    assert(tk[b] == x);
                }
            }
            assert forall|x: OriginalMessageId| tk.to_set().insert(elem).contains(x)
                implies #[trigger] tk1.to_set().contains(x) by {
                if x == elem {
                    assert(tk1[tk1.len() - 1] == x);
                } else {
                    let b = choose|b: int| 0 <= b < tk.len() && tk[b] == x;
                    assert(tk1[b] == x);
                }
            }
            assert(tk1.to_set() =~= tk.to_set().insert(elem));
            assert(m0.read.union(tk.to_set()).insert(elem) =~= m0.read.union(tk1.to_set()));
            assert(spec_forwards_of(tracker@, elem) == spec_forwards_of(m0, elem)) by {
                assert(tracker@.originals == m0.originals);
            }
        }

        // keep only the copies the user has not just read natively
        let mut kept: Vec<ForwardLocation> = Vec::new();
        let ghost fseq = fwds@;
        let mut j: usize = 0;
        while j < fwds.len()
            invariant
                j <= fwds@.len(),
                fseq == fwds@,
                kept@ == spec_other_forwards(fseq.take(j as int), chat_id, max_id),
            decreases fwds@.len() - j,
        {
            proof {
                assert(fseq.take(j + 1).drop_last() =~= fseq.take(j as int));
                assert(fseq.take(j + 1).last() == fseq[j as int]);
            }
            let f = fwds[j];
            if !(f.chat_id == chat_id && f.message_id <= max_id) {
                kept.push(f);
            }
            j += 1;
        }
        proof {
            assert(fseq.take(fseq.len() as int) =~= fseq);
            assert(kept@ == spec_other_forwards(spec_forwards_of(m0, elem), chat_id, max_id));
        }

        let ghost all_before = all_forwards@;
        append_forwards(&mut all_forwards, &kept);
        proof {
            assert(tk1.drop_last() =~= tk);
            assert(all_forwards@ == spec_collect_propagation(m0, tk1, chat_id, max_id));
        }
        k += 1;
    }
    proof {
        assert(found.take(found.len() as int) =~= found);
    }

    if all_forwards.is_empty() {
        proof {
            assert(tracker@ =~= spec_after_read(m0, chat_id, max_id));
        }
        Action::Nothing
    } else {
        proof {
            assert(tracker@ =~= spec_after_read(m0, chat_id, max_id));
        }
        Action::MarkForwards { forwards: all_forwards }
    }
}

/// Append every element of `src` to `dst`, in order.
fn append_forwards(dst: &mut Vec<ForwardLocation>, src: &Vec<ForwardLocation>)
    ensures
        final(dst)@ == old(dst)@ + src@,
{
    let mut i: usize = 0;
    while i < src.len()
        invariant
            i <= src@.len(),
            dst@ == old(dst)@ + src@.take(i as int),
        decreases src@.len() - i,
    {
        dst.push(src[i]);
        proof {
            assert(old(dst)@ + src@.take(i + 1) =~= (old(dst)@ + src@.take(i as int)).push(
                src@[i as int],
            ));
        }
        i += 1;
    }
    proof {
        assert(src@.take(src@.len() as int) =~= src@);
    }
}

} // verus!

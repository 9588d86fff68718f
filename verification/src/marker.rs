//! The peer cache and the decision half of the mark executor.
//!
//! The executor owns the outbound transport and a cache of resolved peers.
//! Which remote call to make for a chat — the channel form or the plain
//! form of "read history", or none for a chat that was never resolved — is
//! a pure decision over the cache, and it is decided here, verified. The
//! caller performs the calls it is handed, sleeping between them to respect
//! the remote service's rate limits, and treats each failure as per-item:
//! logged and skipped, never aborting the rest of the batch.

use vstd::prelude::*;

use crate::assoc::{assoc_map, unique_keys, lemma_assoc_map_contains, lemma_assoc_map_get,
    lemma_assoc_map_push};
use crate::tracker::ForwardLocation;

verus! {

/// One remote mark-as-read call, fully resolved: the remote API
/// distinguishes broadcast channels from ordinary chats, and picking the
/// wrong form is a protocol error.
#[derive(Clone, Copy, PartialEq, Eq, Debug, Structural)]
pub enum MarkReadCall {
    /// Read the channel `chat_id` up to `max_id`.
    Channel { chat_id: i64, max_id: i32 },
    /// Read the ordinary chat `chat_id` up to `max_id`.
    Chat { chat_id: i64, max_id: i32 },
}

/// What the cache records of one resolved peer: how to classify it for the
/// remote call, and a display name for diagnostics.
pub type PeerModel = Map<i64, (bool, Seq<char>)>;

/// Caches, per chat, whether its peer is a broadcast channel and what to
/// call it, so the executor can issue remote calls for any chat it has
/// seen. Entries are never evicted; the first writer wins.
pub struct PeerCache {
    entries: Vec<(i64, (bool, String))>,
}

impl View for PeerCache {
    type V = PeerModel;

    closed spec fn view(&self) -> PeerModel {
        assoc_map(self.entries@.map_values(|p: (i64, (bool, String))| (p.0, (p.1.0, p.1.1@))))
    }
}

/// The call to make for reading `chat_id` up to `max_id`: the channel or
/// the chat form by the cached classification, or nothing for an
/// unresolved chat.
pub open spec fn spec_mark_call(m: PeerModel, chat_id: i64, max_id: i32) -> Option<MarkReadCall> {
    if m.contains_key(chat_id) {
        if m[chat_id].0 {
            Some(MarkReadCall::Channel { chat_id, max_id })
        } else {
            Some(MarkReadCall::Chat { chat_id, max_id })
        }
    } else {
        None
    }
}

/// The calls of a best-effort batch over the given forwards, in order;
/// a forward whose chat was never resolved is skipped, not fatal.
pub open spec fn spec_mark_batch(m: PeerModel, fwds: Seq<ForwardLocation>) -> Seq<MarkReadCall>
    decreases fwds.len(),
{
    if fwds.len() == 0 {
        Seq::empty()
    } else {
        let rest = spec_mark_batch(m, fwds.drop_last());
        match spec_mark_call(m, fwds.last().chat_id, fwds.last().message_id) {
            Some(c) => rest.push(c),
            None => rest,
        }
    }
}

/// Index of the entry for `chat_id`.
fn find_peer_idx(v: &Vec<(i64, (bool, String))>, chat_id: i64) -> (r: Option<usize>)
    ensures
        (match r {
            Some(i) => i < v.len() && v@[i as int].0 == chat_id,
            None => forall|j: int| 0 <= j < v@.len() ==> v@[j].0 != chat_id,
        }),
{
    let mut i: usize = 0;
    while i < v.len()
        invariant
            i <= v.len(),
            forall|j: int| 0 <= j < i ==> v@[j].0 != chat_id,
        decreases v.len() - i,
    {
        if v[i].0 == chat_id {
            return Some(i);
        }
        i += 1;
    }
    None
}

impl PeerCache {
    /// The mapped pair sequence behind the view.
    closed spec fn entries_seq(&self) -> Seq<(i64, (bool, Seq<char>))> {
        self.entries@.map_values(|p: (i64, (bool, String))| (p.0, (p.1.0, p.1.1@)))
    }

    /// Well-formed: one entry per chat.
    pub closed spec fn wf(&self) -> bool {
        unique_keys(self.entries@)
    }

    /// An empty cache.
    pub fn new() -> (r: PeerCache)
        ensures
            r.wf(),
            r@ == Map::<i64, (bool, Seq<char>)>::empty(),
    {
        let r = PeerCache { entries: Vec::new() };
        proof {
            assert(r.entries_seq().len() == 0);
        }
        r
    }

    /// Remember a peer learned from an update. The reference obtained first
    /// is considered authoritative, so an already cached chat is left alone.
    pub fn cache_peer(&mut self, chat_id: i64, channel: bool, name: String)
        requires
            old(self).wf(),
        ensures
            final(self).wf(),
            final(self)@ == (if old(self)@.contains_key(chat_id) {
                old(self)@
            } else {
                old(self)@.insert(chat_id, (channel, name@))
            }),
    {
        proof {
            lemma_assoc_map_contains(self.entries_seq());
            lemma_assoc_map_push(self.entries_seq(), chat_id, (channel, name@));
        }
        match find_peer_idx(&self.entries, chat_id) {
            Some(i) => {
                proof {
                    assert(self.entries_seq()[i as int].0 == chat_id);
                    assert(self@.contains_key(chat_id));
                }
            },
            None => {
                let ghost before = self.entries_seq();
                self.entries.push((chat_id, (channel, name)));
                proof {
                    assert(self.entries_seq() =~= before.push((chat_id, (channel, name@))));
                    assert(unique_keys(self.entries@));
                }
            },
        }
    }

    /// The cached display name of a chat, or "unknown".
    pub fn get_chat_name(&self, chat_id: i64) -> (r: String)
        requires
            self.wf(),
        ensures
            r@ == (if self@.contains_key(chat_id) {
                self@[chat_id].1
            } else {
                "unknown"@
            }),
    {
        proof {
            lemma_assoc_map_contains(self.entries_seq());
            lemma_assoc_map_get(self.entries_seq());
        }
        match find_peer_idx(&self.entries, chat_id) {
            Some(i) => {
                proof {
                    assert(self.entries_seq()[i as int].0 == chat_id);
                }
                self.entries[i].1.1.clone()
            },
            None => "unknown".to_owned(),
        }
    }

    /// Decide the remote call for reading `chat_id` up to `max_id`; `None`
    /// means the chat has no cached peer and the caller logs and skips it.
    pub fn plan_mark_read(&self, chat_id: i64, max_id: i32) -> (r: Option<MarkReadCall>)
        requires
            self.wf(),
        ensures
            r == spec_mark_call(self@, chat_id, max_id),
    {
        proof {
            lemma_assoc_map_contains(self.entries_seq());
            lemma_assoc_map_get(self.entries_seq());
        }
        match find_peer_idx(&self.entries, chat_id) {
            Some(i) => {
                proof {
                    assert(self.entries_seq()[i as int].0 == chat_id);
                }
                if self.entries[i].1.0 {
                    Some(MarkReadCall::Channel { chat_id, max_id })
                } else {
                    Some(MarkReadCall::Chat { chat_id, max_id })
                }
            },
            None => None,
        }
    }

    /// Decide the whole best-effort batch for a list of forwards: one call
    /// per forward with a cached peer, in order, each up to that forward's
    /// own message id; forwards without a cached peer are dropped here and
    /// the caller logs them.
    pub fn plan_mark_forwards(&self, forwards: &Vec<ForwardLocation>) -> (r: Vec<MarkReadCall>)
        requires
            self.wf(),
        ensures
            r@ == spec_mark_batch(self@, forwards@),
    {
        let mut r: Vec<MarkReadCall> = Vec::new();
        let mut i: usize = 0;
        while i < forwards.len()
            invariant
                i <= forwards@.len(),
                self.wf(),
                r@ == spec_mark_batch(self@, forwards@.take(i as int)),
            decreases forwards@.len() - i,
        {
            proof {
                assert(forwards@.take(i + 1).drop_last() =~= forwards@.take(i as int));
                assert(forwards@.take(i + 1).last() == forwards@[i as int]);
            }
            let f = forwards[i];
            match self.plan_mark_read(f.chat_id, f.message_id) {
                Some(c) => r.push(c),
                None => {},
            }
            i += 1;
        }
        proof {
            assert(forwards@.take(forwards@.len() as int) =~= forwards@);
        }
        r
    }
}

} // verus!

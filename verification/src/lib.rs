//! Keeps a single account's read state consistent across duplicate copies
//! of the same message: when a post is forwarded into several chats,
//! reading any one copy propagates read status to every other known copy.
//!
//! The heart of the crate is [`tracker::DuplicateTracker`], a bidirectional,
//! chat-indexed mapping between original messages and their forwarded
//! copies, together with the planning half of a two-phase update pipeline
//! ([`handler::plan_update`]) and the decision half of the mark executor
//! ([`marker::PeerCache`]). All of it is specified against a mathematical
//! model and verified; [`laws`] states the properties that span several
//! operations. The surrounding process — transport, durable storage, the
//! event loop — lives outside this crate and talks to it in plain values,
//! persisting the index through [`snapshot::TrackerSnapshot`].

pub mod assoc;
pub mod config;
pub mod handler;
pub mod laws;
pub mod marker;
pub mod snapshot;
pub mod tracker;

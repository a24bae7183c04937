//! Core of a four-player Riichi-style mahjong match engine.
//!
//! The crate is organised bottom-up:
//!
//! * [`tile`] — tile values, tile identities, the canonical tileset, and the
//!   chow predicate.
//! * [`hand`] — a player's hand during a match: concealed tiles, the current
//!   draw, open melds, discards, and the call-matching algorithm.
//! * [`match_state`] — the authoritative match state machine: wall, four
//!   hands, turn state, call resolution, and the per-seat projection.
//! * [`client`] — the client-side shadow state that mirrors the match by
//!   replaying events, with opponents' concealed tiles redacted.
//! * [`messages`] — the request and event types bridging server and clients.
//! * [`controller`] — the per-match coordinator: it sequences the match,
//!   decides which event goes to which seat, and drives dummy players.

pub mod client;
pub mod controller;
pub mod hand;
pub mod match_state;
pub mod messages;
pub mod tile;

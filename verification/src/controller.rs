//! The per-match coordinator: it owns the authoritative state, decides
//! which event every seat receives, and supplies the policy for
//! computer-controlled seats. The surrounding program only ferries the
//! returned events to the clients and feeds their requests back in.

use crate::client::{LocalState, LocalTurnState, MatchStep};
use crate::hand::{compare_calls_spec, contains_id, Call, DiscardError};
use crate::match_state::{
    call_registered, calls_parts, discarded_draw, fresh_hand, match_wf, no_seat_waiting,
    MatchError, MatchId, MatchState, PerSeat, TurnState, TurnStateKind,
};
use crate::messages::{FinalCall, MatchEvent};
use crate::tile::{tile_set, wind_next, TileId, TileInstance, Wind};
use rand::seq::SliceRandom;
use rand::SeedableRng;
use vstd::prelude::*;

verus! {

/// A seat was asked for twice.
#[derive(Debug, Clone, Copy, PartialEq, Eq, Structural)]
pub enum ControllerError {
    SeatTaken,
}

/// What a computer-controlled seat does in reaction to an event.
#[derive(Debug, Clone, Copy, PartialEq, Eq, Structural)]
pub enum DummyAction {
    /// Discard this tile.
    Discard(TileId),
    /// Submit this call.
    SubmitCall(Call),
}

/// Coordinates one match: seats join, the match starts, and every discard
/// or call request advances the authoritative state and yields the events
/// to deliver, seat by seat.
#[derive(Debug)]
pub struct MatchController {
    pub state: MatchState,
    /// Which seats a real client controls; the rest are computer-driven.
    pub occupied: PerSeat<bool>,
    /// How many real players the match waits for before starting.
    pub num_players: u8,
}

// ---------------------------------------------------------------------------
// What the delivered event lists look like, seat by seat.
// ---------------------------------------------------------------------------

/// The fixed delivery order: every fan-out addresses the seats east to
/// north.
pub open spec fn seat_order() -> Seq<Wind> {
    seq![Wind::East, Wind::South, Wind::West, Wind::North]
}

/// The same event to every seat.
pub open spec fn to_all_events(e: MatchEvent) -> Seq<(Wind, MatchEvent)> {
    seat_order().map_values(|q: Wind| (q, e))
}

/// A draw fan-out: the drawing seat learns its tile, everyone else only
/// that a draw happened.
pub open spec fn draw_events(seat: Wind, tile: TileId) -> Seq<(Wind, MatchEvent)> {
    seat_order().map_values(
        |q: Wind|
            (
                q,
                if q == seat {
                    MatchEvent::LocalDraw { seat, tile }
                } else {
                    MatchEvent::RemoteDraw { seat }
                },
            ),
    )
}

pub open spec fn pass_events() -> Seq<(Wind, MatchEvent)> {
    to_all_events(MatchEvent::Pass)
}

pub open spec fn ended_events(winner: Option<Wind>) -> Seq<(Wind, MatchEvent)> {
    to_all_events(MatchEvent::MatchEnded { winner })
}

pub open spec fn call_events(fc: FinalCall) -> Seq<(Wind, MatchEvent)> {
    to_all_events(MatchEvent::Call(fc))
}

/// One `TileDiscarded` delivery: addressed to `to`, and carrying exactly
/// the calls the waiting map holds for `to` — nothing of any other seat.
pub open spec fn discard_delivery(
    e: (Wind, MatchEvent),
    to: Wind,
    player: Wind,
    tile: TileId,
    waiting: PerSeat<Option<Vec<Call>>>,
) -> bool {
    &&& e.0 == to
    &&& e.1 matches MatchEvent::TileDiscarded { seat, tile: t2, calls } && seat == player && t2
        == tile && (match waiting.at(to) {
        Some(l) => calls@ == l@,
        None => calls@.len() == 0,
    })
}

/// The discard fan-out: one `TileDiscarded` per seat in delivery order,
/// each restricted to that seat's own permitted calls. This is the
/// information-hiding boundary: a seat that cannot call receives an empty
/// list, and the waiting map itself never leaves the server.
pub open spec fn discard_fanout(
    evs: Seq<(Wind, MatchEvent)>,
    player: Wind,
    tile: TileId,
    waiting: PerSeat<Option<Vec<Call>>>,
) -> bool {
    &&& evs.len() == 4
    &&& forall|k: int|
        0 <= k < 4 ==> discard_delivery(#[trigger] evs[k], seat_order()[k], player, tile, waiting)
}

/// The waiting map with nobody in it.
pub open spec fn no_waiting() -> PerSeat<Option<Vec<Call>>> {
    PerSeat { east: None, south: None, west: None, north: None }
}

/// What making the next draw and announcing it amounts to: on a live wall
/// the state takes the draw step and the draw fan-out goes out; on an
/// empty wall the match ends for everyone.
pub open spec fn drawn_and_announced(
    m1: MatchState,
    m2: MatchState,
    seat: Wind,
    evs: Seq<(Wind, MatchEvent)>,
) -> bool {
    if m1.wall@.len() == 0 {
        &&& crate::client::step_server(m1, m2, MatchStep::End { winner: None })
        &&& evs == ended_events(None)
    } else {
        &&& crate::client::step_server(
            m1,
            m2,
            MatchStep::Draw { p: seat, t: m1.wall@.last() },
        )
        &&& evs == draw_events(seat, m1.wall@.last().id)
    }
}

/// The seat a state waits on for its draw.
pub open spec fn next_drawer(m: MatchState) -> Wind {
    m.turn_state->AwaitingDraw_0
}

/// What resolving a finished call phase amounts to: when nobody called,
/// the pass is broadcast and play moves left of the discarder; otherwise
/// the winning call — the one beating every other registered call — is
/// broadcast and play moves left of the winner.
pub open spec fn decided(
    m1: MatchState,
    m2: MatchState,
    head: Seq<(Wind, MatchEvent)>,
) -> bool {
    let (dp, d, cs, w) = calls_parts(m1.turn_state);
    if forall|q: Wind| (#[trigger] cs.at(q)) is None {
        &&& crate::client::step_server(m1, m2, MatchStep::DecidePass)
        &&& head == pass_events()
    } else {
        exists|w0: Wind|
            (#[trigger] cs.at(w0)) is Some && ({
                let c0 = cs.at(w0)->Some_0;
                &&& crate::client::step_server(m1, m2, MatchStep::DecideCall { w0, c0 })
                &&& forall|q: Wind|
                    q != w0 && (#[trigger] cs.at(q)) is Some ==> compare_calls_spec(
                        w0,
                        c0,
                        q,
                        cs.at(q)->Some_0,
                        dp,
                    ) == core::cmp::Ordering::Greater
                &&& head == call_events(
                    FinalCall { caller: w0, called_from: dp, discard: d, winning_call: c0 },
                )
            })
    }
}

/// How many seats real clients hold.
pub open spec fn occupied_count_spec(o: PerSeat<bool>) -> int {
    (if o.east {
        1int
    } else {
        0int
    }) + (if o.south {
        1int
    } else {
        0int
    }) + (if o.west {
        1int
    } else {
        0int
    }) + (if o.north {
        1int
    } else {
        0int
    })
}

// ---------------------------------------------------------------------------
// Randomness, behind trusted wrappers.
// ---------------------------------------------------------------------------

/// Relies on `rand_pcg::Pcg64Mcg::seed_from_u64` and
/// `rand::seq::SliceRandom::shuffle`: shuffling permutes the elements in
/// place.
#[verifier::external_body]
fn shuffle_tiles(tiles: &mut Vec<TileInstance>, seed: u64)
    ensures
        final(tiles)@.to_multiset() == old(tiles)@.to_multiset(),
{
    let mut rng = rand_pcg::Pcg64Mcg::seed_from_u64(seed);
    tiles.shuffle(&mut rng);
}

/// Relies on `rand::random`: a fresh seed from the operating system's
/// entropy; nothing can be promised of its value.
#[verifier::external_body]
fn random_seed() -> u64 {
    rand::random::<u64>()
}

impl MatchController {
    /// Creates a match over the canonical tileset shuffled by `seed`;
    /// tests inject a fixed seed, the server draws one from the system.
    pub fn new(id: MatchId, num_players: u8, seed: u64) -> (r: MatchController)
        ensures
            match_wf(r.state),
            r.state.id == id,
            r.state.turn_state == TurnState::AwaitingDraw(Wind::East),
            r.state.wall@.len() == 84,
            forall|q: Wind| fresh_hand(#[trigger] r.state.players.at(q)),
            forall|q: Wind| !(#[trigger] r.occupied.at(q)),
            r.num_players == num_players,
    {
        let mut tiles = tile_set();
        shuffle_tiles(&mut tiles, seed);
        proof {
            assert(tiles@.len() == tiles@.to_multiset().len()) by {
                broadcast use vstd::seq_lib::group_to_multiset_ensures;

            }
            assert(crate::tile::tile_set_seq().len() == crate::tile::tile_set_seq()
                .to_multiset().len()) by {
                broadcast use vstd::seq_lib::group_to_multiset_ensures;

            }
            assert(tiles@.len() == 136);
        }
        let state = MatchState::new(id, tiles);
        let r = MatchController {
            state,
            occupied: PerSeat { east: false, south: false, west: false, north: false },
            num_players,
        };
        proof {
            assert forall|q: Wind| fresh_hand(#[trigger] r.state.players.at(q)) by {
                match q {
                    Wind::East => {},
                    Wind::South => {},
                    Wind::West => {},
                    Wind::North => {},
                }
            }
        }
        r
    }

    /// Creates a match shuffled by a seed drawn from the system.
    pub fn new_from_entropy(id: MatchId, num_players: u8) -> (r: MatchController)
        ensures
            match_wf(r.state),
            r.state.id == id,
            r.state.turn_state == TurnState::AwaitingDraw(Wind::East),
            r.state.wall@.len() == 84,
            forall|q: Wind| fresh_hand(#[trigger] r.state.players.at(q)),
            forall|q: Wind| !(#[trigger] r.occupied.at(q)),
            r.num_players == num_players,
    {
        let seed = random_seed();
        MatchController::new(id, num_players, seed)
    }

    pub fn id(&self) -> (r: MatchId)
        ensures
            r == self.state.id,
    {
        self.state.id()
    }

    /// How many seats real clients hold.
    fn occupied_count(&self) -> (r: u8)
        ensures
            r as int == occupied_count_spec(self.occupied),
            r <= 4,
    {
        let mut n: u8 = 0;
        if *self.occupied.get(Wind::East) {
            n = n + 1;
        }
        if *self.occupied.get(Wind::South) {
            n = n + 1;
        }
        if *self.occupied.get(Wind::West) {
            n = n + 1;
        }
        if *self.occupied.get(Wind::North) {
            n = n + 1;
        }
        n
    }

    /// Seats a client. The reply carries the client's initial view and
    /// whether the table is now full, in which case the caller schedules
    /// the match start — after this reply is delivered, so that the joining
    /// client sees its initial state before any broadcast.
    pub fn join(&mut self, seat: Wind) -> (r: Result<(LocalState, bool), ControllerError>)
        requires
            match_wf(old(self).state),
        ensures
            match_wf(final(self).state),
            old(self).occupied.at(seat) ==> r == Err::<(LocalState, bool), ControllerError>(
                ControllerError::SeatTaken,
            ) && *final(self) == *old(self),
            !old(self).occupied.at(seat) ==> r is Ok && final(self).state == old(self).state
                && final(self).num_players == old(self).num_players
                && crate::client::projects(r->Ok_0.0, final(self).state, seat) && (forall|q: Wind|
                #[trigger] final(self).occupied.at(q) == (old(self).occupied.at(q) || q == seat))
                && r->Ok_0.1 == (occupied_count_spec(final(self).occupied) >= old(
                self,
            ).num_players as int),
    {
        if *self.occupied.get(seat) {
            return Err(ControllerError::SeatTaken);
        }
        self.occupied.set(seat, true);
        let view = self.state.local_state_for_player(seat);
        let start = self.occupied_count() >= self.num_players;
        Ok((view, start))
    }

    /// Starts the match: every unfilled seat falls to the computer
    /// policy, and the first draw is made and announced.
    pub fn start_match(&mut self) -> (r: Result<Vec<(Wind, MatchEvent)>, MatchError>)
        requires
            match_wf(old(self).state),
        ensures
            match_wf(final(self).state),
            final(self).occupied == old(self).occupied,
            final(self).num_players == old(self).num_players,
            !(old(self).state.turn_state is AwaitingDraw) ==> r == Err::<
                Vec<(Wind, MatchEvent)>,
                MatchError,
            >(
                MatchError::InvalidAction {
                    expected: TurnStateKind::AwaitingDraw,
                    actual: crate::match_state::turn_kind(old(self).state.turn_state),
                },
            ) && *final(self) == *old(self),
            old(self).state.turn_state matches TurnState::AwaitingDraw(p) ==> r is Ok
                && drawn_and_announced(old(self).state, final(self).state, p, (r->Ok_0)@),
    {
        let seat = match &self.state.turn_state {
            TurnState::AwaitingDraw(seat) => *seat,
            _ => {
                let actual = kind_of_turn(&self.state.turn_state);
                return Err(
                    MatchError::InvalidAction { expected: TurnStateKind::AwaitingDraw, actual },
                );
            },
        };
        self.draw_and_announce(seat)
    }

    /// Draws for `seat` and builds the per-seat announcements.
    fn draw_and_announce(&mut self, seat: Wind) -> (r: Result<Vec<(Wind, MatchEvent)>, MatchError>)
        requires
            match_wf(old(self).state),
        ensures
            match_wf(final(self).state),
            final(self).occupied == old(self).occupied,
            final(self).num_players == old(self).num_players,
            !(old(self).state.turn_state matches TurnState::AwaitingDraw(p) && p == seat) ==> r
                == Err::<Vec<(Wind, MatchEvent)>, MatchError>(
                MatchError::InvalidAction {
                    expected: TurnStateKind::AwaitingDraw,
                    actual: crate::match_state::turn_kind(old(self).state.turn_state),
                },
            ) && *final(self) == *old(self),
            (old(self).state.turn_state matches TurnState::AwaitingDraw(p) && p == seat) ==> r
                is Ok && drawn_and_announced(old(self).state, final(self).state, seat, (r->Ok_0)@),
    {
        let ghost before = old(self).state;
        let drawn = match self.state.draw_for_player(seat) {
            Ok(d) => d,
            Err(e) => {
                return Err(e);
            },
        };
        let mut events: Vec<(Wind, MatchEvent)> = Vec::new();
        match drawn {
            Some(tile) => {
                push_draws(&mut events, seat, tile);
                proof {
                    assert(crate::client::step_server(
                        before,
                        self.state,
                        MatchStep::Draw { p: seat, t: before.wall@.last() },
                    ));
                }
                Ok(events)
            },
            None => {
                push_ended(&mut events, None);
                proof {
                    assert(crate::client::step_server(
                        before,
                        self.state,
                        MatchStep::End { winner: None },
                    ));
                }
                Ok(events)
            },
        }
    }

    /// Handles a discard request: the state advances exactly as the match
    /// machine prescribes, every seat gets a `TileDiscarded` carrying only
    /// its own permitted calls, and when nobody can call, the pass and the
    /// next draw (or the match's end) follow immediately.
    #[verifier::rlimit(100)]
    pub fn discard_tile(&mut self, player: Wind, tile: TileId) -> (r: Result<
        Vec<(Wind, MatchEvent)>,
        MatchError,
    >)
        requires
            match_wf(old(self).state),
        ensures
            match_wf(final(self).state),
            final(self).occupied == old(self).occupied,
            final(self).num_players == old(self).num_players,
            !(old(self).state.turn_state matches TurnState::AwaitingDiscard(p) && p == player)
                ==> r == Err::<Vec<(Wind, MatchEvent)>, MatchError>(
                MatchError::InvalidAction {
                    expected: TurnStateKind::AwaitingDiscard,
                    actual: crate::match_state::turn_kind(old(self).state.turn_state),
                },
            ) && *final(self) == *old(self),
            (old(self).state.turn_state matches TurnState::AwaitingDiscard(p) && p == player)
                ==> ({
                let h = old(self).state.players.at(player);
                if !contains_id(h.tiles@, tile) && discarded_draw(h).id != tile {
                    r == Err::<Vec<(Wind, MatchEvent)>, MatchError>(
                        MatchError::Discard(DiscardError::NotInHand),
                    ) && *final(self) == *old(self)
                } else {
                    &&& r is Ok
                    &&& tile.0 < 136
                    &&& ({
                        let evs = (r->Ok_0)@;
                        if final(self).state.turn_state is AwaitingCalls {
                            &&& crate::client::step_server(
                                old(self).state,
                                final(self).state,
                                MatchStep::DiscardCalls { p: player, tile },
                            )
                            &&& discard_fanout(
                                evs,
                                player,
                                tile,
                                calls_parts(final(self).state.turn_state).3,
                            )
                        } else {
                            exists|mid: MatchState|
                                #![trigger mid.turn_state]
                                {
                                    &&& crate::client::step_server(
                                        old(self).state,
                                        mid,
                                        MatchStep::DiscardNoCalls { p: player, tile },
                                    )
                                    &&& evs.len() == 12
                                    &&& discard_fanout(evs.take(4), player, tile, no_waiting())
                                    &&& evs.subrange(4, 8) == pass_events()
                                    &&& drawn_and_announced(
                                        mid,
                                        final(self).state,
                                        wind_next(player),
                                        evs.skip(8),
                                    )
                                }
                        }
                    })
                }
            }),
    {
        let ghost before = old(self).state;
        match self.state.discard_tile(player, tile) {
            Ok(()) => {},
            Err(e) => {
                return Err(e);
            },
        }
        let ghost mid = self.state;
        let mut events: Vec<(Wind, MatchEvent)> = Vec::new();
        let can_call = match &self.state.turn_state {
            TurnState::AwaitingCalls { waiting, .. } => {
                proof {
                    assert(*waiting == calls_parts(self.state.turn_state).3);
                }
                push_discards(&mut events, player, tile, waiting);
                true
            },
            _ => {
                push_empty_discards(&mut events, player, tile);
                false
            },
        };
        proof {
            assert(events@.skip(0) =~= events@);
        }
        if can_call {
            proof {
                assert(crate::client::step_server(
                    before,
                    self.state,
                    MatchStep::DiscardCalls { p: player, tile },
                ));
            }
            return Ok(events);
        }
        proof {
            assert(crate::client::step_server(
                before,
                mid,
                MatchStep::DiscardNoCalls { p: player, tile },
            ));
        }
        // Nobody can call: tell everyone the phase passed, and make the
        // next draw at once.
        let ghost fan4 = events@;
        push_passes(&mut events);
        let next = match &self.state.turn_state {
            TurnState::AwaitingDraw(next) => *next,
            _ => {
                proof {
                    assert(false);
                }
                player
            },
        };
        match self.draw_and_announce(next) {
            Ok(more) => {
                proof {
                    assert(drawn_and_announced(mid, self.state, next, more@));
                }
                append_events(&mut events, more);
                proof {
                    let evs = events@;
                    assert(evs.take(4) =~= fan4);
                    assert(discard_fanout(evs.take(4), player, tile, no_waiting()));
                    assert(evs.subrange(4, 8) =~= pass_events());
                    assert(evs.skip(8) =~= more@);
                    assert(evs.len() == 12);
                    assert(next == wind_next(player));
                    assert(crate::client::step_server(
                        before,
                        mid,
                        MatchStep::DiscardNoCalls { p: player, tile },
                    ));
                    assert(drawn_and_announced(mid, self.state, wind_next(player), evs.skip(8)));
                }
                Ok(events)
            },
            Err(e) => {
                proof {
                    assert(false);
                }
                Err(e)
            },
        }
    }

    /// Handles a call request: the seat's decision is registered, and once
    /// every waiting seat has decided, the outcome — the winning call or a
    /// pass — is broadcast, followed by the next draw or the match's end.
    #[verifier::rlimit(100)]
    pub fn call_tile(&mut self, player: Wind, call: Option<Call>) -> (r: Result<
        Vec<(Wind, MatchEvent)>,
        MatchError,
    >)
        requires
            match_wf(old(self).state),
        ensures
            match_wf(final(self).state),
            final(self).occupied == old(self).occupied,
            final(self).num_players == old(self).num_players,
            !(old(self).state.turn_state is AwaitingCalls) ==> r == Err::<
                Vec<(Wind, MatchEvent)>,
                MatchError,
            >(
                MatchError::InvalidAction {
                    expected: TurnStateKind::AwaitingCalls,
                    actual: crate::match_state::turn_kind(old(self).state.turn_state),
                },
            ) && *final(self) == *old(self),
            old(self).state.turn_state matches TurnState::AwaitingCalls { waiting, .. } ==> ({
                if waiting.at(player) is None {
                    r == Err::<Vec<(Wind, MatchEvent)>, MatchError>(MatchError::NotWaiting)
                        && *final(self) == *old(self)
                } else {
                    if call is Some && !(waiting.at(player)->Some_0)@.contains(call->Some_0) {
                        r == Err::<Vec<(Wind, MatchEvent)>, MatchError>(
                            MatchError::CallNotAllowed,
                        ) && *final(self) == *old(self)
                    } else {
                        &&& r is Ok
                        &&& ({
                            let evs = (r->Ok_0)@;
                            if exists|q: Wind|
                                q != player && (#[trigger] waiting.at(q)) is Some {
                                // Seats are still deciding: register
                                // silently.
                                evs.len() == 0 && call_registered(
                                    old(self).state,
                                    final(self).state,
                                    player,
                                    call,
                                )
                            } else {
                                exists|m1: MatchState, m2: MatchState|
                                    #![trigger m1.turn_state, m2.turn_state]
                                    {
                                        &&& call_registered(old(self).state, m1, player, call)
                                        &&& evs.len() == 8
                                        &&& decided(m1, m2, evs.take(4))
                                        &&& drawn_and_announced(
                                            m2,
                                            final(self).state,
                                            next_drawer(m2),
                                            evs.skip(4),
                                        )
                                    }
                            }
                        })
                    }
                }
            }),
    {
        let ghost before = old(self).state;
        let done = match self.state.request_call(player, call) {
            Ok(done) => done,
            Err(e) => {
                return Err(e);
            },
        };
        let mut events: Vec<(Wind, MatchEvent)> = Vec::new();
        if !done {
            return Ok(events);
        }
        let ghost m1 = self.state;
        let (dp, d) = match &self.state.turn_state {
            TurnState::AwaitingCalls { discarding_player, discard, .. } => (
                *discarding_player,
                *discard,
            ),
            _ => {
                proof {
                    assert(false);
                }
                (player, TileId(0))
            },
        };
        let outcome = match self.state.decide_call() {
            Ok(outcome) => outcome,
            Err(e) => {
                proof {
                    assert(false);
                }
                return Err(e);
            },
        };
        let ghost m2 = self.state;
        match outcome {
            Some((caller, winning_call)) => {
                let fc = FinalCall { caller, called_from: dp, discard: d, winning_call };
                push_calls(&mut events, fc);
            },
            None => {
                push_passes(&mut events);
            },
        }
        proof {
            assert(decided(m1, m2, events@)) by {
                let (dpg, dg, cs, wg) = calls_parts(m1.turn_state);
                match outcome {
                    Some((caller, winning_call)) => {
                        assert(cs.at(caller) == Some(winning_call));
                        assert(!(forall|q: Wind| (#[trigger] cs.at(q)) is None)) by {
                            assert(!(cs.at(caller) is None));
                        }
                    },
                    None => {},
                }
            }
        }
        let next = match &self.state.turn_state {
            TurnState::AwaitingDraw(next) => Some(*next),
            _ => None,
        };
        let ghost head = events@;
        match next {
            Some(next) => match self.draw_and_announce(next) {
                Ok(more) => {
                    proof {
                        assert(drawn_and_announced(m2, self.state, next_drawer(m2), more@));
                    }
                    append_events(&mut events, more);
                    proof {
                        assert(events@.take(4) =~= head);
                        assert(events@.skip(4) =~= more@);
                    }
                },
                Err(e) => {
                    proof {
                        assert(false);
                    }
                    return Err(e);
                },
            },
            None => {
                proof {
                    assert(false);
                }
            },
        }
        Ok(events)
    }
}

/// The reaction of a computer-controlled seat to its current view: discard
/// the first concealed tile when it must discard, submit its first call
/// when it can call, otherwise wait.
pub fn dummy_action(view: &LocalState, seat: Wind) -> (r: Option<DummyAction>)
    requires
        crate::client::local_wf(*view),
        view.seat == seat,
    ensures
        match view.turn_state {
            LocalTurnState::AwaitingDiscard(p) => {
                if p == seat && crate::client::own_hand(*view).tiles@.len() > 0 {
                    r == Some(DummyAction::Discard(crate::client::own_hand(*view).tiles@[0].id))
                } else {
                    r is None
                }
            },
            LocalTurnState::AwaitingCalls { .. } => {
                let calls = view.turn_state->AwaitingCalls_calls;
                if calls@.len() > 0 {
                    r == Some(DummyAction::SubmitCall(calls@[0]))
                } else {
                    r is None
                }
            },
            _ => r is None,
        },
{
    match &view.turn_state {
        LocalTurnState::AwaitingDiscard(p) => {
            if *p == seat {
                match view.players.get(seat) {
                    crate::client::LocalHand::Local(hand) => {
                        if hand.tiles().len() > 0 {
                            Some(DummyAction::Discard(hand.tiles()[0].id))
                        } else {
                            None
                        }
                    },
                    crate::client::LocalHand::Remote(_) => unreached(),
                }
            } else {
                None
            }
        },
        LocalTurnState::AwaitingCalls { calls, .. } => {
            if calls.len() > 0 {
                Some(DummyAction::SubmitCall(calls[0]))
            } else {
                None
            }
        },
        _ => None,
    }
}

/// The shape of a turn state, for error reports.
fn kind_of_turn(t: &TurnState) -> (r: TurnStateKind)
    ensures
        r == crate::match_state::turn_kind(*t),
{
    match t {
        TurnState::AwaitingDraw(..) => TurnStateKind::AwaitingDraw,
        TurnState::AwaitingDiscard(..) => TurnStateKind::AwaitingDiscard,
        TurnState::AwaitingCalls { .. } => TurnStateKind::AwaitingCalls,
        TurnState::MatchEnded { .. } => TurnStateKind::MatchEnded,
    }
}

// ---------------------------------------------------------------------------
// Event-list builders, each matching its fan-out spec exactly.
// ---------------------------------------------------------------------------

/// Appends the draw fan-out for `seat`.
fn push_draws(events: &mut Vec<(Wind, MatchEvent)>, seat: Wind, tile: TileId)
    ensures
        final(events)@ == old(events)@ + draw_events(seat, tile),
{
    let ghost base = events@;
    push_one_draw(events, Wind::East, seat, tile);
    push_one_draw(events, Wind::South, seat, tile);
    push_one_draw(events, Wind::West, seat, tile);
    push_one_draw(events, Wind::North, seat, tile);
    proof {
        assert(events@ =~= base + draw_events(seat, tile));
    }
}

fn push_one_draw(events: &mut Vec<(Wind, MatchEvent)>, to: Wind, seat: Wind, tile: TileId)
    ensures
        final(events)@ == old(events)@.push(
            (
                to,
                if to == seat {
                    MatchEvent::LocalDraw { seat, tile }
                } else {
                    MatchEvent::RemoteDraw { seat }
                },
            ),
        ),
{
    if to == seat {
        events.push((to, MatchEvent::LocalDraw { seat, tile }));
    } else {
        events.push((to, MatchEvent::RemoteDraw { seat }));
    }
}

/// Appends a pass to every seat.
fn push_passes(events: &mut Vec<(Wind, MatchEvent)>)
    ensures
        final(events)@ == old(events)@ + pass_events(),
{
    let ghost base = events@;
    events.push((Wind::East, MatchEvent::Pass));
    events.push((Wind::South, MatchEvent::Pass));
    events.push((Wind::West, MatchEvent::Pass));
    events.push((Wind::North, MatchEvent::Pass));
    proof {
        assert(events@ =~= base + pass_events());
    }
}

/// Appends the end of the match to every seat.
fn push_ended(events: &mut Vec<(Wind, MatchEvent)>, winner: Option<Wind>)
    ensures
        final(events)@ == old(events)@ + ended_events(winner),
{
    let ghost base = events@;
    events.push((Wind::East, MatchEvent::MatchEnded { winner }));
    events.push((Wind::South, MatchEvent::MatchEnded { winner }));
    events.push((Wind::West, MatchEvent::MatchEnded { winner }));
    events.push((Wind::North, MatchEvent::MatchEnded { winner }));
    proof {
        assert(events@ =~= base + ended_events(winner));
    }
}

/// Appends the winning call to every seat.
fn push_calls(events: &mut Vec<(Wind, MatchEvent)>, fc: FinalCall)
    ensures
        final(events)@ == old(events)@ + call_events(fc),
{
    let ghost base = events@;
    events.push((Wind::East, MatchEvent::Call(fc)));
    events.push((Wind::South, MatchEvent::Call(fc)));
    events.push((Wind::West, MatchEvent::Call(fc)));
    events.push((Wind::North, MatchEvent::Call(fc)));
    proof {
        assert(events@ =~= base + call_events(fc));
    }
}

/// Appends the discard fan-out with each seat's own calls.
fn push_discards(
    events: &mut Vec<(Wind, MatchEvent)>,
    player: Wind,
    tile: TileId,
    waiting: &PerSeat<Option<Vec<Call>>>,
)
    ensures
        final(events)@.len() == old(events)@.len() + 4,
        forall|k: int| 0 <= k < old(events)@.len() ==> #[trigger] final(events)@[k] == old(
            events,
        )@[k],
        discard_fanout(
            final(events)@.skip(old(events)@.len() as int),
            player,
            tile,
            *waiting,
        ),
{
    let ghost base = events@;
    push_discard_event(events, Wind::East, player, tile, waiting);
    push_discard_event(events, Wind::South, player, tile, waiting);
    push_discard_event(events, Wind::West, player, tile, waiting);
    push_discard_event(events, Wind::North, player, tile, waiting);
    proof {
        let tail = events@.skip(base.len() as int);
        assert(tail.len() == 4);
        assert(discard_delivery(tail[0], Wind::East, player, tile, *waiting)) by {
            assert(tail[0] == events@[base.len() as int]);
        }
        assert(discard_delivery(tail[1], Wind::South, player, tile, *waiting)) by {
            assert(tail[1] == events@[base.len() as int + 1]);
        }
        assert(discard_delivery(tail[2], Wind::West, player, tile, *waiting)) by {
            assert(tail[2] == events@[base.len() as int + 2]);
        }
        assert(discard_delivery(tail[3], Wind::North, player, tile, *waiting)) by {
            assert(tail[3] == events@[base.len() as int + 3]);
        }
        assert forall|k: int| 0 <= k < 4 implies discard_delivery(
            #[trigger] tail[k],
            seat_order()[k],
            player,
            tile,
            *waiting,
        ) by {
            assert(k == 0 || k == 1 || k == 2 || k == 3);
        }
    }
}

/// Appends the discard fan-out of a discard nobody can call.
fn push_empty_discards(events: &mut Vec<(Wind, MatchEvent)>, player: Wind, tile: TileId)
    ensures
        final(events)@.len() == old(events)@.len() + 4,
        forall|k: int| 0 <= k < old(events)@.len() ==> #[trigger] final(events)@[k] == old(
            events,
        )@[k],
        discard_fanout(
            final(events)@.skip(old(events)@.len() as int),
            player,
            tile,
            no_waiting(),
        ),
{
    let none: PerSeat<Option<Vec<Call>>> = PerSeat {
        east: None,
        south: None,
        west: None,
        north: None,
    };
    push_discards(events, player, tile, &none);
    proof {
        assert(none == no_waiting());
    }
}

/// Announces a discard to one seat, with exactly that seat's permitted
/// calls — the information-hiding boundary of the protocol.
fn push_discard_event(
    events: &mut Vec<(Wind, MatchEvent)>,
    to: Wind,
    player: Wind,
    tile: TileId,
    waiting: &PerSeat<Option<Vec<Call>>>,
)
    ensures
        final(events)@.len() == old(events)@.len() + 1,
        forall|k: int| 0 <= k < old(events)@.len() ==> #[trigger] final(events)@[k] == old(
            events,
        )@[k],
        discard_delivery(final(events)@.last(), to, player, tile, *waiting),
{
    let calls: Vec<Call> = match waiting.get(to) {
        Some(l) => crate::hand::copy_calls(l),
        None => Vec::new(),
    };
    events.push((to, MatchEvent::TileDiscarded { seat: player, tile, calls }));
}

/// Appends the second event list to the first.
fn append_events(events: &mut Vec<(Wind, MatchEvent)>, mut more: Vec<(Wind, MatchEvent)>)
    ensures
        final(events)@ == old(events)@ + more@,
{
    events.append(&mut more);
}

} // verus!

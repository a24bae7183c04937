//! The client-side shadow of a match: full knowledge of the own hand,
//! redacted views of the other seats, kept in step by replaying events.

use crate::hand::{
    call_valid, contains_id, count_value, hand_budget_ok, id_index, possible_calls_ok, remove_id,
    tiles_distinct, unchanged_melds, Call, HandState,
};
use crate::match_state::{
    calls_parts, instance_ok, match_wf, waiting_ok, MatchId, MatchState, PerSeat, TurnState,
};
use crate::messages::{FinalCall, MatchEvent};
use crate::tile::{
    all_instances_spec, by_id, instance_by_id, instance_of_id, is_chow, is_chow_spec, tile_of_id,
    valid_tile, wind_next, Meld3, Meld4, Tile, TileId, TileInstance, Wind,
};
use vstd::prelude::*;

verus! {

/// The server and this client no longer agree on the match: fatal for the
/// session.
#[derive(Debug, Clone, Copy, PartialEq, Eq, Hash, Structural)]
pub enum ConsistencyError {
    /// The event does not fit the current turn state.
    WrongState,
    /// The event names a seat it never should.
    WrongSeat,
    /// The event names a tile id outside the tileset.
    BadTile,
    /// The event does not fit what the mirrored hand holds.
    HandMismatch,
    /// The event carries a call that cannot be right here.
    CallMismatch,
}

/// What a client knows about another player's hand: everything visible on
/// the table, and of the concealed tiles only their number.
#[derive(Debug)]
pub struct RemoteHand {
    /// Number of concealed tiles.
    pub tiles: u8,
    pub has_current_draw: bool,
    pub open_chows: Vec<Meld3>,
    pub open_pongs: Vec<Meld3>,
    pub open_kongs: Vec<Meld4>,
    pub closed_kongs: Vec<Meld4>,
    pub discards: Vec<TileInstance>,
}

impl RemoteHand {
    /// A remote hand at the start of a match: thirteen concealed tiles,
    /// nothing else.
    pub fn new() -> (r: Self)
        ensures
            r.tiles == 13,
            r.has_current_draw == false,
            r.open_chows@.len() == 0,
            r.open_pongs@.len() == 0,
            r.open_kongs@.len() == 0,
            r.closed_kongs@.len() == 0,
            r.discards@.len() == 0,
    {
        Self {
            tiles: 13,
            has_current_draw: false,
            open_chows: Vec::new(),
            open_pongs: Vec::new(),
            open_kongs: Vec::new(),
            closed_kongs: Vec::new(),
            discards: Vec::new(),
        }
    }

    /// Notes that the player drew; rejected when a draw is already held.
    pub fn draw_tile(&mut self) -> (r: Result<(), ConsistencyError>)
        ensures
            old(self).has_current_draw ==> r == Err::<(), ConsistencyError>(
                ConsistencyError::HandMismatch,
            ) && *final(self) == *old(self),
            !old(self).has_current_draw ==> r is Ok && *final(self) == (RemoteHand {
                has_current_draw: true,
                ..*old(self)
            }),
    {
        if self.has_current_draw {
            return Err(ConsistencyError::HandMismatch);
        }
        self.has_current_draw = true;
        Ok(())
    }

    /// Mirrors a call this player made on a discard: the visible meld
    /// appears, and the concealed count drops by the tiles it consumed.
    pub fn call_tile(&mut self, discard: TileInstance, call: Call) -> (r: Result<
        (),
        ConsistencyError,
    >)
        ensures
            r is Err ==> *final(self) == *old(self),
            r is Ok ==> remote_called(*old(self), *final(self), discard, call),
            remote_call_fits(*old(self), discard, call) <==> r is Ok,
    {
        match call {
            Call::Chii(a, b) => {
                if a.0 >= 136 || b.0 >= 136 {
                    return Err(ConsistencyError::BadTile);
                }
                let ta = instance_by_id(a);
                let tb = instance_by_id(b);
                if !is_chow(discard.tile, ta.tile, tb.tile) {
                    return Err(ConsistencyError::CallMismatch);
                }
                if self.tiles < 2 {
                    return Err(ConsistencyError::HandMismatch);
                }
                self.tiles = self.tiles - 2;
                self.open_chows.push(Meld3(discard, ta, tb));
                Ok(())
            },
            Call::Pon(a, b) => {
                if a.0 >= 136 || b.0 >= 136 {
                    return Err(ConsistencyError::BadTile);
                }
                let ta = instance_by_id(a);
                let tb = instance_by_id(b);
                if !(crate::hand::tiles_value_eq(discard.tile, ta.tile)
                    && crate::hand::tiles_value_eq(discard.tile, tb.tile)) {
                    return Err(ConsistencyError::CallMismatch);
                }
                if self.tiles < 2 {
                    return Err(ConsistencyError::HandMismatch);
                }
                self.tiles = self.tiles - 2;
                self.open_pongs.push(Meld3(discard, ta, tb));
                Ok(())
            },
            Call::Kan(t) => {
                if !is_valid_tile(t) {
                    return Err(ConsistencyError::BadTile);
                }
                if !crate::hand::tiles_value_eq(t, discard.tile) {
                    return Err(ConsistencyError::CallMismatch);
                }
                if discard.id.0 >= 136 {
                    return Err(ConsistencyError::BadTile);
                }
                let quad = crate::tile::all_instances_of(t);
                let meld = match kong_others(quad, discard) {
                    Some(m) => m,
                    None => {
                        return Err(ConsistencyError::CallMismatch);
                    },
                };
                if self.tiles < 3 {
                    return Err(ConsistencyError::HandMismatch);
                }
                self.tiles = self.tiles - 3;
                self.open_kongs.push(meld);
                Ok(())
            },
            Call::Ron => {
                if self.tiles >= 250 {
                    return Err(ConsistencyError::HandMismatch);
                }
                self.tiles = self.tiles + 1;
                Ok(())
            },
        }
    }
}

/// The claimed discard followed by the other three canonical copies in
/// ascending id order, or nothing when the discard is no copy of the
/// quadruple.
fn kong_others(quad: Meld4, discard: TileInstance) -> (r: Option<Meld4>)
    ensures
        match r {
            Some(m) => quad_has(quad, discard.id) && m == kong_meld_of(quad, discard),
            None => !quad_has(quad, discard.id),
        },
{
    if quad.0.id.0 == discard.id.0 {
        proof {
            assert(quad.0.id == discard.id);
        }
        Some(Meld4(discard, quad.1, quad.2, quad.3))
    } else if quad.1.id.0 == discard.id.0 {
        proof {
            assert(quad.1.id == discard.id);
        }
        Some(Meld4(discard, quad.0, quad.2, quad.3))
    } else if quad.2.id.0 == discard.id.0 {
        proof {
            assert(quad.2.id == discard.id);
        }
        Some(Meld4(discard, quad.0, quad.1, quad.3))
    } else if quad.3.id.0 == discard.id.0 {
        proof {
            assert(quad.3.id == discard.id);
        }
        Some(Meld4(discard, quad.0, quad.1, quad.2))
    } else {
        None
    }
}

pub open spec fn quad_has(quad: Meld4, id: TileId) -> bool {
    quad.0.id == id || quad.1.id == id || quad.2.id == id || quad.3.id == id
}

/// The kong a remote view shows for a claimed discard out of a canonical
/// quadruple.
pub open spec fn kong_meld_of(quad: Meld4, discard: TileInstance) -> Meld4 {
    if quad.0.id == discard.id {
        Meld4(discard, quad.1, quad.2, quad.3)
    } else if quad.1.id == discard.id {
        Meld4(discard, quad.0, quad.2, quad.3)
    } else if quad.2.id == discard.id {
        Meld4(discard, quad.0, quad.1, quad.3)
    } else {
        Meld4(discard, quad.0, quad.1, quad.2)
    }
}

/// Computes [`valid_tile`].
pub fn is_valid_tile(t: Tile) -> (r: bool)
    ensures
        r == valid_tile(t),
{
    match t {
        Tile::Simple(s) => 1 <= s.number && s.number <= 9,
        _ => true,
    }
}

/// The conditions under which a remote call application goes through.
pub open spec fn remote_call_fits(h: RemoteHand, discard: TileInstance, call: Call) -> bool {
    match call {
        Call::Chii(a, b) => a.0 < 136 && b.0 < 136 && is_chow_spec(
            discard.tile,
            tile_of_id(a.0 as int),
            tile_of_id(b.0 as int),
        ) && h.tiles >= 2,
        Call::Pon(a, b) => a.0 < 136 && b.0 < 136 && discard.tile == tile_of_id(a.0 as int)
            && discard.tile == tile_of_id(b.0 as int) && h.tiles >= 2,
        Call::Kan(t) => valid_tile(t) && t == discard.tile && discard.id.0 < 136 && quad_has(
            all_instances_spec(t),
            discard.id,
        ) && h.tiles >= 3,
        Call::Ron => h.tiles < 250,
    }
}

/// How a successful remote call changes the visible hand.
pub open spec fn remote_called(
    h1: RemoteHand,
    h2: RemoteHand,
    discard: TileInstance,
    call: Call,
) -> bool {
    &&& h2.has_current_draw == h1.has_current_draw
    &&& h2.discards@ == h1.discards@
    &&& match call {
        Call::Chii(a, b) => {
            &&& h2.tiles == h1.tiles - 2
            &&& h2.open_chows@ == h1.open_chows@.push(
                Meld3(discard, instance_of_id(a.0 as int), instance_of_id(b.0 as int)),
            )
            &&& h2.open_pongs == h1.open_pongs
            &&& h2.open_kongs == h1.open_kongs
            &&& h2.closed_kongs == h1.closed_kongs
        },
        Call::Pon(a, b) => {
            &&& h2.tiles == h1.tiles - 2
            &&& h2.open_pongs@ == h1.open_pongs@.push(
                Meld3(discard, instance_of_id(a.0 as int), instance_of_id(b.0 as int)),
            )
            &&& h2.open_chows == h1.open_chows
            &&& h2.open_kongs == h1.open_kongs
            &&& h2.closed_kongs == h1.closed_kongs
        },
        Call::Kan(t) => {
            &&& h2.tiles == h1.tiles - 3
            &&& h2.open_kongs@ == h1.open_kongs@.push(
                kong_meld_of(all_instances_spec(t), discard),
            )
            &&& h2.open_chows == h1.open_chows
            &&& h2.open_pongs == h1.open_pongs
            &&& h2.closed_kongs == h1.closed_kongs
        },
        Call::Ron => {
            &&& h2.tiles == h1.tiles + 1
            &&& h2.open_chows == h1.open_chows
            &&& h2.open_pongs == h1.open_pongs
            &&& h2.open_kongs == h1.open_kongs
            &&& h2.closed_kongs == h1.closed_kongs
        },
    }
}

/// A client's knowledge of one seat: everything for its own seat, the
/// visible part for the others.
#[derive(Debug)]
pub enum LocalHand {
    /// The hand of the player this client controls.
    Local(HandState),
    /// Another player's hand, concealed tiles redacted.
    Remote(RemoteHand),
}

impl LocalHand {
    pub fn as_local(&self) -> (r: Option<&HandState>)
        ensures
            match r {
                Some(h) => *self matches LocalHand::Local(h2) && h2 == *h,
                None => *self is Remote,
            },
    {
        match self {
            LocalHand::Local(hand) => Some(hand),
            _ => None,
        }
    }

    pub fn as_remote(&self) -> (r: Option<&RemoteHand>)
        ensures
            match r {
                Some(h) => *self matches LocalHand::Remote(h2) && h2 == *h,
                None => *self is Local,
            },
    {
        match self {
            LocalHand::Remote(hand) => Some(hand),
            _ => None,
        }
    }

    /// The id of the most recent discard, if any.
    pub fn last_discard(&self) -> (r: Option<TileId>)
        ensures
            match *self {
                LocalHand::Local(h) => match r {
                    Some(id) => h.discards@.len() > 0 && id == h.discards@.last().id,
                    None => h.discards@.len() == 0,
                },
                LocalHand::Remote(h) => match r {
                    Some(id) => h.discards@.len() > 0 && id == h.discards@.last().id,
                    None => h.discards@.len() == 0,
                },
            },
    {
        match self {
            LocalHand::Local(hand) => match hand.discards().last() {
                Some(instance) => Some(instance.id),
                None => None,
            },
            LocalHand::Remote(hand) => match hand.discards.last() {
                Some(instance) => Some(instance.id),
                None => None,
            },
        }
    }

    /// Claims the most recent discard back off the pile.
    pub fn call_last_discard(&mut self) -> (r: Option<TileInstance>)
        ensures
            match *old(self) {
                LocalHand::Local(h) => {
                    &&& *final(self) is Local
                    &&& ({
                        let h2 = final(self)->Local_0;
                        if h.discards@.len() == 0 {
                            r is None && h2.discards@ == h.discards@ && h2.tiles@ == h.tiles@
                                && h2.current_draw == h.current_draw && unchanged_melds(h, h2)
                        } else {
                            r == Some(h.discards@.last()) && h2.discards@ == h.discards@
                                .drop_last() && h2.tiles@ == h.tiles@ && h2.current_draw
                                == h.current_draw && unchanged_melds(h, h2)
                        }
                    })
                },
                LocalHand::Remote(h) => {
                    &&& *final(self) is Remote
                    &&& ({
                        let h2 = final(self)->Remote_0;
                        if h.discards@.len() == 0 {
                            r is None && h2.discards@ == h.discards@ && h2.tiles == h.tiles
                                && h2.has_current_draw == h.has_current_draw && h2.open_chows
                                == h.open_chows && h2.open_pongs == h.open_pongs && h2.open_kongs
                                == h.open_kongs && h2.closed_kongs == h.closed_kongs
                        } else {
                            r == Some(h.discards@.last()) && h2.discards@ == h.discards@
                                .drop_last() && h2.tiles == h.tiles && h2.has_current_draw
                                == h.has_current_draw && h2.open_chows == h.open_chows
                                && h2.open_pongs == h.open_pongs && h2.open_kongs == h.open_kongs
                                && h2.closed_kongs == h.closed_kongs
                        }
                    })
                },
            },
    {
        let mut tmp = LocalHand::Remote(RemoteHand::new());
        core::mem::swap(self, &mut tmp);
        match tmp {
            LocalHand::Local(mut hand) => {
                let r = hand.call_last_discard();
                *self = LocalHand::Local(hand);
                r
            },
            LocalHand::Remote(mut hand) => {
                let r = hand.discards.pop();
                *self = LocalHand::Remote(hand);
                r
            },
        }
    }
}

impl LocalHand {
    /// Notes a draw on this hand view: the reconstructed instance for the
    /// own hand, only the fact of the draw for a redacted one.
    pub fn draw_tile(&mut self, id: TileId) -> (r: Result<(), ConsistencyError>)
        ensures
            match *old(self) {
                LocalHand::Local(h) => {
                    if id.0 >= 136 {
                        r is Err && *final(self) == *old(self)
                    } else if h.current_draw is Some {
                        r is Err && *final(self) == *old(self)
                    } else {
                        &&& r is Ok
                        &&& *final(self) is Local
                        &&& ({
                            let h2 = final(self)->Local_0;
                            h2.tiles@ == h.tiles@ && h2.current_draw == Some(
                                instance_of_id(id.0 as int),
                            ) && h2.discards@ == h.discards@ && unchanged_melds(h, h2)
                        })
                    }
                },
                LocalHand::Remote(h) => {
                    if h.has_current_draw {
                        r is Err && *final(self) == *old(self)
                    } else {
                        r is Ok && *final(self) is Remote && final(self)->Remote_0 == (RemoteHand {
                            has_current_draw: true,
                            ..h
                        })
                    }
                },
            },
    {
        let mut tmp = LocalHand::Remote(RemoteHand::new());
        core::mem::swap(self, &mut tmp);
        match tmp {
            LocalHand::Local(mut hand) => {
                if id.0 >= 136 {
                    *self = LocalHand::Local(hand);
                    return Err(ConsistencyError::BadTile);
                }
                let instance = instance_by_id(id);
                let dr = hand.draw_tile(instance);
                *self = LocalHand::Local(hand);
                match dr {
                    Ok(()) => Ok(()),
                    Err(_) => Err(ConsistencyError::HandMismatch),
                }
            },
            LocalHand::Remote(mut hand) => {
                let dr = hand.draw_tile();
                *self = LocalHand::Remote(hand);
                dr
            },
        }
    }

    /// Notes a discard on this hand view: the own hand moves the tile to
    /// its pile; a redacted hand clears its draw mark and shows the
    /// reconstructed instance on its pile.
    pub fn discard_tile(&mut self, id: TileId) -> (r: Result<(), ConsistencyError>)
        ensures
            match *old(self) {
                LocalHand::Local(h) => {
                    if h.current_draw matches Some(draw) && (contains_id(h.tiles@, id) || draw.id
                        == id) {
                        &&& r is Ok
                        &&& *final(self) is Local
                        &&& crate::match_state::hand_discarded(
                            h,
                            final(self)->Local_0,
                            id,
                            crate::match_state::discarded_draw(h),
                        )
                    } else {
                        r is Err && *final(self) == *old(self)
                    }
                },
                LocalHand::Remote(h) => {
                    if (h.has_current_draw || h.tiles >= 1) && id.0 < 136 {
                        &&& r is Ok
                        &&& *final(self) is Remote
                        &&& ({
                            let h2 = final(self)->Remote_0;
                            &&& h2.tiles as int == if h.has_current_draw {
                                h.tiles as int
                            } else {
                                h.tiles as int - 1
                            }
                            &&& h2.has_current_draw == false
                            &&& h2.discards@ == h.discards@.push(instance_of_id(id.0 as int))
                            &&& h2.open_chows == h.open_chows
                            &&& h2.open_pongs == h.open_pongs
                            &&& h2.open_kongs == h.open_kongs
                            &&& h2.closed_kongs == h.closed_kongs
                        })
                    } else {
                        r is Err && *final(self) == *old(self)
                    }
                },
            },
    {
        let mut tmp = LocalHand::Remote(RemoteHand::new());
        core::mem::swap(self, &mut tmp);
        match tmp {
            LocalHand::Local(mut hand) => {
                let dr = hand.discard_tile(id);
                *self = LocalHand::Local(hand);
                match dr {
                    Ok(()) => Ok(()),
                    Err(_) => Err(ConsistencyError::HandMismatch),
                }
            },
            LocalHand::Remote(mut hand) => {
                if !hand.has_current_draw && hand.tiles == 0 {
                    *self = LocalHand::Remote(hand);
                    return Err(ConsistencyError::HandMismatch);
                }
                if id.0 >= 136 {
                    *self = LocalHand::Remote(hand);
                    return Err(ConsistencyError::BadTile);
                }
                if hand.has_current_draw {
                    hand.has_current_draw = false;
                } else {
                    // No draw was shown: the discard came straight from the
                    // concealed tiles.
                    hand.tiles = hand.tiles - 1;
                }
                hand.discards.push(instance_by_id(id));
                *self = LocalHand::Remote(hand);
                Ok(())
            },
        }
    }

    /// Applies a call to this hand view: the full hand moves the named
    /// tiles into the meld, a redacted hand shows the reconstructed meld
    /// and drops the consumed count.
    pub fn call_tile(&mut self, discard: TileInstance, call: Call) -> (r: Result<
        (),
        ConsistencyError,
    >)
        ensures
            match *old(self) {
                LocalHand::Local(h) => {
                    if (call matches Call::Kan(t) ==> t == discard.tile) && call_valid(
                        h.tiles@,
                        discard.tile,
                        call,
                    ) {
                        r is Ok && *final(self) is Local && crate::match_state::hand_called(
                            h,
                            final(self)->Local_0,
                            discard,
                            call,
                        )
                    } else {
                        r is Err && *final(self) == *old(self)
                    }
                },
                LocalHand::Remote(h) => {
                    if remote_call_fits(h, discard, call) {
                        r is Ok && *final(self) is Remote && remote_called(
                            h,
                            final(self)->Remote_0,
                            discard,
                            call,
                        )
                    } else {
                        r is Err && *final(self) == *old(self)
                    }
                },
            },
    {
        let mut tmp = LocalHand::Remote(RemoteHand::new());
        core::mem::swap(self, &mut tmp);
        match tmp {
            LocalHand::Local(mut hand) => {
                let kan_ok = match call {
                    Call::Kan(t) => crate::hand::tiles_value_eq(t, discard.tile),
                    _ => true,
                };
                if !kan_ok {
                    *self = LocalHand::Local(hand);
                    return Err(ConsistencyError::CallMismatch);
                }
                let cr = hand.call_tile(discard, call);
                *self = LocalHand::Local(hand);
                match cr {
                    Ok(()) => Ok(()),
                    Err(_) => Err(ConsistencyError::CallMismatch),
                }
            },
            LocalHand::Remote(mut hand) => {
                let cr = hand.call_tile(discard, call);
                *self = LocalHand::Remote(hand);
                cr
            },
        }
    }
}

/// The turn information a client may know.
///
/// Mirrors the authoritative turn state but hides the other seats' options:
/// in the call phase a client sees only its own valid calls, never which
/// other seats could call.
#[derive(Debug)]
pub enum LocalTurnState {
    AwaitingDraw(Wind),
    AwaitingDiscard(Wind),
    AwaitingCalls { discarding_player: Wind, discard: TileId, calls: Vec<Call> },
    MatchEnded { winner: Option<Wind> },
}

/// The local state a client holds while playing an online match.
///
/// Only a partial image of the match: the other players' concealed tiles
/// and the wall are unknown, so this state cannot simulate the match by
/// itself — it replays the events the server sends.
#[derive(Debug)]
pub struct LocalState {
    pub id: MatchId,
    pub seat: Wind,
    pub players: PerSeat<LocalHand>,
    pub turn_state: LocalTurnState,
}

/// The shape every local state keeps: the own seat is the full hand, every
/// other seat a redacted one.
pub open spec fn local_wf(ls: LocalState) -> bool {
    &&& ls.players.at(ls.seat) is Local
    &&& forall|q: Wind| q != ls.seat ==> (#[trigger] ls.players.at(q)) is Remote
}

/// The own full hand.
pub open spec fn own_hand(ls: LocalState) -> HandState {
    ls.players.at(ls.seat)->Local_0
}


// ---------------------------------------------------------------------------
// Preconditions and effects of replaying each event.
// ---------------------------------------------------------------------------

/// The own-seat draw event fits the current state.
pub open spec fn local_draw_fits(ls: LocalState, id: TileId) -> bool {
    &&& ls.turn_state == LocalTurnState::AwaitingDraw(ls.seat)
    &&& id.0 < 136
    &&& own_hand(ls).current_draw is None
}

/// How a replayed own-seat draw changes the state.
pub open spec fn applied_local_draw(ls1: LocalState, ls2: LocalState, id: TileId) -> bool {
    &&& ls2.id == ls1.id
    &&& ls2.seat == ls1.seat
    &&& ls2.turn_state == LocalTurnState::AwaitingDiscard(ls1.seat)
    &&& forall|q: Wind| q != ls1.seat ==> #[trigger] ls2.players.at(q) == ls1.players.at(q)
    &&& ls2.players.at(ls1.seat) is Local
    &&& ({
        let h1 = own_hand(ls1);
        let h2 = own_hand(ls2);
        &&& h2.tiles@ == h1.tiles@
        &&& h2.current_draw == Some(instance_of_id(id.0 as int))
        &&& h2.discards@ == h1.discards@
        &&& unchanged_melds(h1, h2)
    })
}

/// A remote draw event fits the current state.
pub open spec fn remote_draw_fits(ls: LocalState, seat: Wind) -> bool {
    &&& seat != ls.seat
    &&& ls.turn_state == LocalTurnState::AwaitingDraw(seat)
    &&& ls.players.at(seat) is Remote
    &&& !(ls.players.at(seat)->Remote_0).has_current_draw
}

/// How a replayed remote draw changes the state.
pub open spec fn applied_remote_draw(ls1: LocalState, ls2: LocalState, seat: Wind) -> bool {
    &&& ls2.id == ls1.id
    &&& ls2.seat == ls1.seat
    &&& ls2.turn_state == LocalTurnState::AwaitingDiscard(seat)
    &&& forall|q: Wind| q != seat ==> #[trigger] ls2.players.at(q) == ls1.players.at(q)
    &&& ls2.players.at(seat) is Remote
    &&& ls2.players.at(seat)->Remote_0 == (RemoteHand {
        has_current_draw: true,
        ..ls1.players.at(seat)->Remote_0
    })
}

/// A discard event fits the current state.
pub open spec fn discard_fits(ls: LocalState, dp: Wind, id: TileId) -> bool {
    &&& ls.turn_state == LocalTurnState::AwaitingDiscard(dp)
    &&& if dp == ls.seat {
        ({
            let h = own_hand(ls);
            h.current_draw is Some && (contains_id(h.tiles@, id) || (h.current_draw->Some_0).id
                == id)
        })
    } else {
        ({
            let h = ls.players.at(dp)->Remote_0;
            &&& ls.players.at(dp) is Remote
            &&& (h.has_current_draw || h.tiles >= 1)
            &&& id.0 < 136
            &&& count_value(own_hand(ls).tiles@, tile_of_id(id.0 as int)) <= 3
        })
    }
}

/// How a replayed discard changes the state: the tile reaches the
/// discarder's pile, and the client always enters the call phase holding
/// exactly its own valid calls for the tile — other clients may still be
/// deciding, and only the server knows.
pub open spec fn applied_discard(ls1: LocalState, ls2: LocalState, dp: Wind, id: TileId) -> bool {
    &&& ls2.id == ls1.id
    &&& ls2.seat == ls1.seat
    &&& forall|q: Wind| q != dp ==> #[trigger] ls2.players.at(q) == ls1.players.at(q)
    &&& if dp == ls1.seat {
        ls2.players.at(dp) is Local && crate::match_state::hand_discarded(
            own_hand(ls1),
            own_hand(ls2),
            id,
            own_hand(ls1).current_draw->Some_0,
        )
    } else {
        ({
            let h1 = ls1.players.at(dp)->Remote_0;
            let h2 = ls2.players.at(dp)->Remote_0;
            &&& ls2.players.at(dp) is Remote
            &&& h2.tiles as int == if h1.has_current_draw {
                h1.tiles as int
            } else {
                h1.tiles as int - 1
            }
            &&& h2.has_current_draw == false
            &&& h2.discards@ == h1.discards@.push(instance_of_id(id.0 as int))
            &&& h2.open_chows == h1.open_chows
            &&& h2.open_pongs == h1.open_pongs
            &&& h2.open_kongs == h1.open_kongs
            &&& h2.closed_kongs == h1.closed_kongs
        })
    }
    &&& ls2.turn_state matches LocalTurnState::AwaitingCalls {
        discarding_player,
        discard,
        calls,
    } && discarding_player == dp && discard == id && (if dp == ls1.seat {
        calls@.len() == 0
    } else {
        possible_calls_ok(
            calls@,
            own_hand(ls1).tiles@,
            tile_of_id(id.0 as int),
            wind_next(dp) == ls1.seat,
        )
    })
}

/// A winning-call event fits the current state.
pub open spec fn call_fits(ls: LocalState, fc: FinalCall) -> bool {
    &&& ls.turn_state matches LocalTurnState::AwaitingCalls { discarding_player, discard, calls }
        && fc.called_from == discarding_player && fc.discard == discard && (fc.caller == ls.seat
        ==> calls@.contains(fc.winning_call))
    &&& fc.caller != fc.called_from
    &&& ({
        let lh = ls.players.at(fc.called_from);
        match lh {
            LocalHand::Local(h) => h.discards@.len() > 0 && h.discards@.last().id == fc.discard,
            LocalHand::Remote(h) => h.discards@.len() > 0 && h.discards@.last().id == fc.discard,
        }
    })
}

/// The discard instance the caller claims, as this client stored it.
pub open spec fn claimed_instance(ls: LocalState, from: Wind) -> TileInstance {
    match ls.players.at(from) {
        LocalHand::Local(h) => h.discards@.last(),
        LocalHand::Remote(h) => h.discards@.last(),
    }
}

/// A winning call that fits the view but cannot be applied to the stored
/// hand leaves the session diverged with exactly the pile pop done: the
/// claimed discard is off the pile, nothing else moved.
pub open spec fn popped_only(ls1: LocalState, ls2: LocalState, from: Wind) -> bool {
    &&& ls2.id == ls1.id
    &&& ls2.seat == ls1.seat
    &&& ls2.turn_state == ls1.turn_state
    &&& applied_pop(ls1, ls2, from)
    &&& forall|q: Wind| q != from ==> #[trigger] ls2.players.at(q) == ls1.players.at(q)
}

/// The claimed discard left the discarder's pile.
pub open spec fn applied_pop(ls1: LocalState, ls2: LocalState, from: Wind) -> bool {
    match ls1.players.at(from) {
        LocalHand::Local(h1) => ls2.players.at(from) matches LocalHand::Local(h2) && h2.tiles@
            == h1.tiles@ && h2.current_draw == h1.current_draw && unchanged_melds(h1, h2)
            && h2.discards@ == h1.discards@.drop_last(),
        LocalHand::Remote(h1) => ls2.players.at(from) matches LocalHand::Remote(h2) && h2.tiles
            == h1.tiles && h2.has_current_draw == h1.has_current_draw && h2.open_chows
            == h1.open_chows && h2.open_pongs == h1.open_pongs && h2.open_kongs == h1.open_kongs
            && h2.closed_kongs == h1.closed_kongs && h2.discards@ == h1.discards@.drop_last(),
    }
}

/// How a replayed winning call changes the state.
pub open spec fn applied_call(ls1: LocalState, ls2: LocalState, fc: FinalCall) -> bool {
    &&& ls2.id == ls1.id
    &&& ls2.seat == ls1.seat
    &&& ls2.turn_state == LocalTurnState::AwaitingDraw(wind_next(fc.caller))
    &&& forall|q: Wind|
        q != fc.called_from && q != fc.caller ==> #[trigger] ls2.players.at(q) == ls1.players.at(
            q,
        )
    &&& applied_pop(ls1, ls2, fc.called_from)
    &&& ({
        let disc = claimed_instance(ls1, fc.called_from);
        match ls1.players.at(fc.caller) {
            LocalHand::Local(h1) => ls2.players.at(fc.caller) matches LocalHand::Local(h2)
                && crate::match_state::hand_called(h1, h2, disc, fc.winning_call),
            LocalHand::Remote(h1) => ls2.players.at(fc.caller) matches LocalHand::Remote(h2)
                && remote_called(h1, h2, disc, fc.winning_call),
        }
    })
}

// ---------------------------------------------------------------------------
// The local state machine.
// ---------------------------------------------------------------------------

impl LocalState {
    /// Swaps one seat's hand view with `lh`.
    fn swap_hand(&mut self, seat: Wind, lh: &mut LocalHand)
        ensures
            final(self).players.at(seat) == *old(lh),
            *final(lh) == old(self).players.at(seat),
            forall|q: Wind| q != seat ==> #[trigger] final(self).players.at(q) == old(
                self,
            ).players.at(q),
            final(self).id == old(self).id,
            final(self).seat == old(self).seat,
            final(self).turn_state == old(self).turn_state,
    {
        match seat {
            Wind::East => core::mem::swap(&mut self.players.east, lh),
            Wind::South => core::mem::swap(&mut self.players.south, lh),
            Wind::West => core::mem::swap(&mut self.players.west, lh),
            Wind::North => core::mem::swap(&mut self.players.north, lh),
        }
    }

    /// Replays this client's own draw: the drawn tile becomes the hand's
    /// current draw and the client is to discard.
    pub fn draw_local_tile(&mut self, draw_id: TileId) -> (r: Result<(), ConsistencyError>)
        requires
            local_wf(*old(self)),
        ensures
            local_wf(*final(self)),
            local_draw_fits(*old(self), draw_id) ==> r is Ok && applied_local_draw(
                *old(self),
                *final(self),
                draw_id,
            ),
            !local_draw_fits(*old(self), draw_id) ==> r is Err && *final(self) == *old(self),
    {
        let ok = match &self.turn_state {
            LocalTurnState::AwaitingDraw(p) => *p == self.seat,
            _ => false,
        };
        if !ok {
            return Err(ConsistencyError::WrongState);
        }
        if draw_id.0 >= 136 {
            return Err(ConsistencyError::BadTile);
        }
        let tile = instance_by_id(draw_id);
        let seat = self.seat;
        let mut lh = LocalHand::Remote(RemoteHand::new());
        self.swap_hand(seat, &mut lh);
        match lh {
            LocalHand::Local(mut hand) => {
                let dr = hand.draw_tile(tile);
                let mut back = LocalHand::Local(hand);
                self.swap_hand(seat, &mut back);
                match dr {
                    Ok(()) => {
                        self.turn_state = LocalTurnState::AwaitingDiscard(seat);
                        Ok(())
                    },
                    Err(_) => {
                        proof {
                            lemma_players_restored(*old(self), *self);
                        }
                        Err(ConsistencyError::HandMismatch)
                    },
                }
            },
            LocalHand::Remote(_) => {
                proof {
                    assert(false);
                }
                Err(ConsistencyError::HandMismatch)
            },
        }
    }

    /// Replays another seat's draw: that hand now visibly holds a draw and
    /// that seat is to discard.
    pub fn draw_remote_tile(&mut self, seat: Wind) -> (r: Result<(), ConsistencyError>)
        requires
            local_wf(*old(self)),
        ensures
            local_wf(*final(self)),
            remote_draw_fits(*old(self), seat) ==> r is Ok && applied_remote_draw(
                *old(self),
                *final(self),
                seat,
            ),
            !remote_draw_fits(*old(self), seat) ==> r is Err && *final(self) == *old(self),
    {
        if seat == self.seat {
            return Err(ConsistencyError::WrongSeat);
        }
        let ok = match &self.turn_state {
            LocalTurnState::AwaitingDraw(p) => *p == seat,
            _ => false,
        };
        if !ok {
            return Err(ConsistencyError::WrongState);
        }
        let mut lh = LocalHand::Remote(RemoteHand::new());
        self.swap_hand(seat, &mut lh);
        match lh {
            LocalHand::Remote(mut hand) => {
                let dr = hand.draw_tile();
                let mut back = LocalHand::Remote(hand);
                self.swap_hand(seat, &mut back);
                match dr {
                    Ok(()) => {
                        self.turn_state = LocalTurnState::AwaitingDiscard(seat);
                        Ok(())
                    },
                    Err(e) => {
                        proof {
                            lemma_players_restored(*old(self), *self);
                        }
                        Err(e)
                    },
                }
            },
            LocalHand::Local(_) => {
                proof {
                    assert(false);
                }
                Err(ConsistencyError::HandMismatch)
            },
        }
    }

    /// Replays a discard: the tile joins the discarder's pile and the
    /// client enters the call phase with its own valid calls for the tile
    /// (none when the client discarded itself).
    pub fn discard_tile(&mut self, discarding_player: Wind, discard: TileId) -> (r: Result<
        (),
        ConsistencyError,
    >)
        requires
            local_wf(*old(self)),
            tiles_distinct(own_hand(*old(self)).tiles@),
        ensures
            local_wf(*final(self)),
            discard_fits(*old(self), discarding_player, discard) ==> r is Ok && applied_discard(
                *old(self),
                *final(self),
                discarding_player,
                discard,
            ),
            !discard_fits(*old(self), discarding_player, discard) ==> r is Err && *final(self)
                == *old(self),
    {
        let ok = match &self.turn_state {
            LocalTurnState::AwaitingDiscard(p) => *p == discarding_player,
            _ => false,
        };
        if !ok {
            return Err(ConsistencyError::WrongState);
        }
        let seat = self.seat;
        if discarding_player == seat {
            let mut lh = LocalHand::Remote(RemoteHand::new());
            self.swap_hand(seat, &mut lh);
            match lh {
                LocalHand::Local(mut hand) => {
                    let dr = hand.discard_tile(discard);
                    let mut back = LocalHand::Local(hand);
                    self.swap_hand(seat, &mut back);
                    match dr {
                        Ok(()) => {
                            self.turn_state = LocalTurnState::AwaitingCalls {
                                discarding_player,
                                discard,
                                calls: Vec::new(),
                            };
                            Ok(())
                        },
                        Err(_) => {
                            proof {
                                lemma_players_restored(*old(self), *self);
                            }
                            Err(ConsistencyError::HandMismatch)
                        },
                    }
                },
                LocalHand::Remote(_) => {
                    proof {
                        assert(false);
                    }
                    Err(ConsistencyError::HandMismatch)
                },
            }
        } else {
            if discard.0 >= 136 {
                return Err(ConsistencyError::BadTile);
            }
            let v = by_id(discard);
            // Bound the matching copies before touching anything, so a
            // diverged stream leaves the state unchanged.
            let own_calls = {
                let own = match self.players.get(seat) {
                    LocalHand::Local(hand) => hand,
                    LocalHand::Remote(_) => unreached(),
                };
                let mut cnt: usize = 0;
                let mut k: usize = 0;
                let ghost s = own.tiles@;
                while k < own.tiles.len()
                    invariant
                        k <= s.len(),
                        s == own.tiles@,
                        cnt <= k,
                        cnt == count_value(s.take(k as int), v),
                    decreases s.len() - k,
                {
                    proof {
                        assert(s.take(k as int + 1).drop_last() =~= s.take(k as int));
                        assert(s.take(k as int + 1).last() == s[k as int]);
                    }
                    if crate::hand::tiles_value_eq(own.tiles[k].tile, v) {
                        cnt = cnt + 1;
                    }
                    k = k + 1;
                }
                proof {
                    assert(s.take(s.len() as int) =~= s);
                }
                if cnt > 3 {
                    return Err(ConsistencyError::HandMismatch);
                }
                own.find_possible_calls(v, discarding_player.next() == seat)
            };
            let mut lh = LocalHand::Remote(RemoteHand::new());
            self.swap_hand(discarding_player, &mut lh);
            match lh {
                LocalHand::Remote(mut hand) => {
                    if !hand.has_current_draw && hand.tiles == 0 {
                        let mut back = LocalHand::Remote(hand);
                        self.swap_hand(discarding_player, &mut back);
                        proof {
                            lemma_players_restored(*old(self), *self);
                        }
                        return Err(ConsistencyError::HandMismatch);
                    }
                    if hand.has_current_draw {
                        hand.has_current_draw = false;
                    } else {
                        // No draw was shown: the discard came straight from
                        // the concealed tiles.
                        hand.tiles = hand.tiles - 1;
                    }
                    hand.discards.push(instance_by_id(discard));
                    let mut back = LocalHand::Remote(hand);
                    self.swap_hand(discarding_player, &mut back);
                    self.turn_state = LocalTurnState::AwaitingCalls {
                        discarding_player,
                        discard,
                        calls: own_calls,
                    };
                    Ok(())
                },
                LocalHand::Local(_) => {
                    proof {
                        assert(false);
                    }
                    Err(ConsistencyError::HandMismatch)
                },
            }
        }
    }

    /// Replays the outcome of a call phase: the winning call (the discard
    /// moves from the discarder's pile into the caller's meld, and play
    /// continues left of the caller), or a pass by everyone (play continues
    /// left of the discarder).
    pub fn decide_call(&mut self, call: Option<FinalCall>) -> (r: Result<(), ConsistencyError>)
        requires
            local_wf(*old(self)),
        ensures
            local_wf(*final(self)),
            ({
                let ls1 = *old(self);
                match call {
                    None => {
                        if ls1.turn_state is AwaitingCalls {
                            r is Ok && final(self).id == ls1.id && final(self).seat == ls1.seat
                                && final(self).players == ls1.players && final(self).turn_state
                                == LocalTurnState::AwaitingDraw(
                                wind_next(ls1.turn_state->AwaitingCalls_discarding_player),
                            )
                        } else {
                            r is Err && *final(self) == *old(self)
                        }
                    },
                    Some(fc) => {
                        if call_fits(ls1, fc) {
                            if call_applies(ls1, fc) {
                                r is Ok && applied_call(ls1, *final(self), fc)
                            } else {
                                r is Err && popped_only(ls1, *final(self), fc.called_from)
                            }
                        } else {
                            r is Err && *final(self) == *old(self)
                        }
                    },
                }
            }),
    {
        let (dp, d, has_calls) = match &self.turn_state {
            LocalTurnState::AwaitingCalls { discarding_player, discard, calls } => (
                *discarding_player,
                *discard,
                true,
            ),
            _ => {
                return Err(ConsistencyError::WrongState);
            },
        };
        let fc = match call {
            None => {
                self.turn_state = LocalTurnState::AwaitingDraw(dp.next());
                return Ok(());
            },
            Some(fc) => fc,
        };
        if fc.called_from != dp {
            return Err(ConsistencyError::CallMismatch);
        }
        if fc.discard.0 != d.0 {
            proof {
                assert(fc.discard != d);
            }
            return Err(ConsistencyError::CallMismatch);
        }
        if fc.caller == fc.called_from {
            return Err(ConsistencyError::CallMismatch);
        }
        if fc.caller == self.seat {
            let allowed = match &self.turn_state {
                LocalTurnState::AwaitingCalls { calls, .. } => crate::match_state::contains_call(
                    calls,
                    fc.winning_call,
                ),
                _ => {
                    proof {
                        assert(false);
                    }
                    false
                },
            };
            if !allowed {
                return Err(ConsistencyError::CallMismatch);
            }
        }
        // The stored pile must end in the claimed tile.
        let last_ok = match self.players.get(fc.called_from) {
            LocalHand::Local(hand) => match hand.discards().last() {
                Some(instance) => instance.id.0 == fc.discard.0,
                None => false,
            },
            LocalHand::Remote(hand) => match hand.discards.last() {
                Some(instance) => instance.id.0 == fc.discard.0,
                None => false,
            },
        };
        if !last_ok {
            return Err(ConsistencyError::HandMismatch);
        }
        proof {
            assert(call_fits(*old(self), fc));
        }
        let mut from_hand = LocalHand::Remote(RemoteHand::new());
        self.swap_hand(fc.called_from, &mut from_hand);
        let (disc, mut back) = match from_hand {
            LocalHand::Local(mut hand) => {
                let p = hand.call_last_discard();
                (p, LocalHand::Local(hand))
            },
            LocalHand::Remote(mut hand) => {
                let p = hand.discards.pop();
                (p, LocalHand::Remote(hand))
            },
        };
        self.swap_hand(fc.called_from, &mut back);
        let disc = match disc {
            Some(t) => t,
            None => unreached(),
        };
        let mut caller_hand = LocalHand::Remote(RemoteHand::new());
        self.swap_hand(fc.caller, &mut caller_hand);
        let (cr, mut back2) = match caller_hand {
            LocalHand::Local(mut hand) => {
                let kan_ok = match fc.winning_call {
                    Call::Kan(t) => crate::hand::tiles_value_eq(t, disc.tile),
                    _ => true,
                };
                if !kan_ok {
                    (Err(ConsistencyError::CallMismatch), LocalHand::Local(hand))
                } else {
                    let cr = hand.call_tile(disc, fc.winning_call);
                    let cr2 = match cr {
                        Ok(()) => Ok(()),
                        Err(_) => Err(ConsistencyError::CallMismatch),
                    };
                    (cr2, LocalHand::Local(hand))
                }
            },
            LocalHand::Remote(mut hand) => {
                let cr = hand.call_tile(disc, fc.winning_call);
                (cr, LocalHand::Remote(hand))
            },
        };
        self.swap_hand(fc.caller, &mut back2);
        match cr {
            Ok(()) => {
                self.turn_state = LocalTurnState::AwaitingDraw(fc.caller.next());
                Ok(())
            },
            Err(e) => Err(e),
        }
    }

}

/// Two local states whose per-seat entries agree hold the same players.
proof fn lemma_players_restored(a: LocalState, b: LocalState)
    requires
        forall|q: Wind| #[trigger] b.players.at(q) == a.players.at(q),
    ensures
        b.players == a.players,
{
    assert(b.players.at(Wind::East) == a.players.at(Wind::East));
    assert(b.players.at(Wind::South) == a.players.at(Wind::South));
    assert(b.players.at(Wind::West) == a.players.at(Wind::West));
    assert(b.players.at(Wind::North) == a.players.at(Wind::North));
}

/// Whether applying the winning call to the caller's stored hand view goes
/// through.
pub open spec fn call_applies(ls: LocalState, fc: FinalCall) -> bool {
    let disc = claimed_instance(ls, fc.called_from);
    match ls.players.at(fc.caller) {
        LocalHand::Local(h) => (fc.winning_call matches Call::Kan(t) ==> t == disc.tile)
            && crate::hand::call_valid(h.tiles@, disc.tile, fc.winning_call),
        LocalHand::Remote(h) => remote_call_fits(h, disc, fc.winning_call),
    }
}



// ---------------------------------------------------------------------------
// Event dispatch, getters, and comparisons.
// ---------------------------------------------------------------------------

impl LocalState {
    /// Replays one match event, advancing this client's view exactly as
    /// the server advanced the match.
    pub fn handle_event(&mut self, event: &MatchEvent) -> (r: Result<(), ConsistencyError>)
        requires
            local_wf(*old(self)),
            tiles_distinct(own_hand(*old(self)).tiles@),
        ensures
            local_wf(*final(self)),
            ({
                let ls1 = *old(self);
                match *event {
                    MatchEvent::LocalDraw { seat, tile } => {
                        if seat == ls1.seat && local_draw_fits(ls1, tile) {
                            r is Ok && applied_local_draw(ls1, *final(self), tile)
                        } else {
                            r is Err && *final(self) == *old(self)
                        }
                    },
                    MatchEvent::RemoteDraw { seat } => {
                        if remote_draw_fits(ls1, seat) {
                            r is Ok && applied_remote_draw(ls1, *final(self), seat)
                        } else {
                            r is Err && *final(self) == *old(self)
                        }
                    },
                    MatchEvent::TileDiscarded { seat, tile, .. } => {
                        if discard_fits(ls1, seat, tile) {
                            r is Ok && applied_discard(ls1, *final(self), seat, tile)
                        } else {
                            r is Err && *final(self) == *old(self)
                        }
                    },
                    MatchEvent::Call(fc) => {
                        if call_fits(ls1, fc) {
                            if call_applies(ls1, fc) {
                                r is Ok && applied_call(ls1, *final(self), fc)
                            } else {
                                r is Err && popped_only(ls1, *final(self), fc.called_from)
                            }
                        } else {
                            r is Err && *final(self) == *old(self)
                        }
                    },
                    MatchEvent::Pass => {
                        if ls1.turn_state is AwaitingCalls {
                            r is Ok && final(self).id == ls1.id && final(self).seat == ls1.seat
                                && final(self).players == ls1.players && final(self).turn_state
                                == LocalTurnState::AwaitingDraw(
                                wind_next(ls1.turn_state->AwaitingCalls_discarding_player),
                            )
                        } else {
                            r is Err && *final(self) == *old(self)
                        }
                    },
                    MatchEvent::MatchEnded { winner } => r is Ok && final(self).id == ls1.id
                        && final(self).seat == ls1.seat && final(self).players == ls1.players
                        && final(self).turn_state == (LocalTurnState::MatchEnded { winner }),
                }
            }),
    {
        match event {
            MatchEvent::LocalDraw { seat, tile } => {
                if *seat != self.seat {
                    return Err(ConsistencyError::WrongSeat);
                }
                self.draw_local_tile(*tile)
            },
            MatchEvent::RemoteDraw { seat } => self.draw_remote_tile(*seat),
            MatchEvent::TileDiscarded { seat, tile, .. } => self.discard_tile(*seat, *tile),
            MatchEvent::Call(call) => self.decide_call(Some(*call)),
            MatchEvent::Pass => self.decide_call(None),
            MatchEvent::MatchEnded { winner } => {
                self.turn_state = LocalTurnState::MatchEnded { winner: *winner };
                Ok(())
            },
        }
    }

    pub fn id(&self) -> (r: MatchId)
        ensures
            r == self.id,
    {
        self.id
    }

    pub fn seat(&self) -> (r: Wind)
        ensures
            r == self.seat,
    {
        self.seat
    }

    /// Builds the request that submits a discard to the server; the
    /// boundary turns it into a wire message.
    pub fn request_discard_tile(&self, player: Wind, tile: TileId) -> (r:
        crate::messages::ClientRequest)
        ensures
            r matches crate::messages::ClientRequest::DiscardTile(q) && q.id == self.id
                && q.player == player && q.tile == tile,
    {
        crate::messages::ClientRequest::DiscardTile(
            crate::messages::DiscardTileRequest { id: self.id, player, tile },
        )
    }

    /// The full hand at a seat this client controls.
    pub fn local_hand(&self, seat: Wind) -> (r: HandState)
        requires
            self.players.at(seat) is Local,
        ensures
            crate::hand::hand_eq(self.players.at(seat)->Local_0, r),
    {
        match self.players.get(seat) {
            LocalHand::Local(hand) => hand.clone(),
            LocalHand::Remote(_) => unreached(),
        }
    }

    /// The visible part of another seat's hand.
    pub fn remote_hand(&self, seat: Wind) -> (r: RemoteHand)
        requires
            self.players.at(seat) is Remote,
        ensures
            remote_hand_eq(self.players.at(seat)->Remote_0, r),
    {
        match self.players.get(seat) {
            LocalHand::Remote(hand) => RemoteHand {
                tiles: hand.tiles,
                has_current_draw: hand.has_current_draw,
                open_chows: crate::hand::copy_melds3(&hand.open_chows),
                open_pongs: crate::hand::copy_melds3(&hand.open_pongs),
                open_kongs: crate::hand::copy_melds4(&hand.open_kongs),
                closed_kongs: crate::hand::copy_melds4(&hand.closed_kongs),
                discards: crate::hand::copy_tiles(&hand.discards),
            },
            LocalHand::Local(_) => unreached(),
        }
    }

    /// A copy of the turn information.
    pub fn turn_state(&self) -> (r: LocalTurnState)
        ensures
            local_turn_eq(self.turn_state, r),
    {
        match &self.turn_state {
            LocalTurnState::AwaitingDraw(p) => LocalTurnState::AwaitingDraw(*p),
            LocalTurnState::AwaitingDiscard(p) => LocalTurnState::AwaitingDiscard(*p),
            LocalTurnState::AwaitingCalls { discarding_player, discard, calls } => (
            LocalTurnState::AwaitingCalls {
                discarding_player: *discarding_player,
                discard: *discard,
                calls: crate::hand::copy_calls(calls),
            }),
            LocalTurnState::MatchEnded { winner } => LocalTurnState::MatchEnded {
                winner: *winner,
            },
        }
    }

    /// Whether the named seat visibly holds a current draw.
    pub fn player_has_current_draw(&self, seat: Wind) -> (r: bool)
        ensures
            r == match self.players.at(seat) {
                LocalHand::Local(h) => h.current_draw is Some,
                LocalHand::Remote(h) => h.has_current_draw,
            },
    {
        match self.players.get(seat) {
            LocalHand::Local(hand) => hand.has_current_draw(),
            LocalHand::Remote(hand) => hand.has_current_draw,
        }
    }

    /// Like [`LocalState::draw_local_tile`], reporting only success.
    pub fn try_draw_local_tile(&mut self, draw_id: TileId) -> (r: bool)
        requires
            local_wf(*old(self)),
        ensures
            local_wf(*final(self)),
            r == local_draw_fits(*old(self), draw_id),
    {
        self.draw_local_tile(draw_id).is_ok()
    }

    /// Like [`LocalState::draw_remote_tile`], reporting only success.
    pub fn try_draw_remote_tile(&mut self, seat: Wind) -> (r: bool)
        requires
            local_wf(*old(self)),
        ensures
            local_wf(*final(self)),
            r == remote_draw_fits(*old(self), seat),
    {
        self.draw_remote_tile(seat).is_ok()
    }

    /// Like [`LocalState::discard_tile`], reporting only success.
    pub fn try_discard_tile(&mut self, discarding_player: Wind, discard: TileId) -> (r: bool)
        requires
            local_wf(*old(self)),
            tiles_distinct(own_hand(*old(self)).tiles@),
        ensures
            local_wf(*final(self)),
            r == discard_fits(*old(self), discarding_player, discard),
    {
        self.discard_tile(discarding_player, discard).is_ok()
    }

    /// Like [`LocalState::decide_call`] with a call, reporting only
    /// success.
    pub fn try_decide_call(&mut self, call: FinalCall) -> (r: bool)
        requires
            local_wf(*old(self)),
        ensures
            local_wf(*final(self)),
            r == (call_fits(*old(self), call) && call_applies(*old(self), call)),
    {
        self.decide_call(Some(call)).is_ok()
    }

    /// Like [`LocalState::decide_call`] with a pass, reporting only
    /// success.
    pub fn try_decide_pass(&mut self) -> (r: bool)
        requires
            local_wf(*old(self)),
        ensures
            local_wf(*final(self)),
            r == (old(self).turn_state is AwaitingCalls),
    {
        self.decide_call(None).is_ok()
    }
}

/// The visible part of a full hand: what another player would see of it.
pub open spec fn remote_of(h: HandState, r: RemoteHand) -> bool {
    &&& r.tiles as int == h.tiles@.len()
    &&& r.has_current_draw == (h.current_draw is Some)
    &&& r.open_chows@ == h.open_chows@
    &&& r.open_pongs@ == h.open_pongs@
    &&& r.open_kongs@ == h.open_kongs@
    &&& r.closed_kongs@ == h.closed_kongs@
    &&& r.discards@ == h.discards@
}

impl HandState {
    /// This hand as one seat of a client view: the full hand for the
    /// controlling client, the visible part for everyone else.
    pub fn to_local(&self, is_local_player: bool) -> (r: LocalHand)
        requires
            self.tiles@.len() < 256,
        ensures
            is_local_player ==> (r matches LocalHand::Local(h) && crate::hand::hand_eq(
                *self,
                h,
            )),
            !is_local_player ==> (r matches LocalHand::Remote(h) && remote_of(*self, h)),
    {
        if is_local_player {
            LocalHand::Local(self.clone())
        } else {
            LocalHand::Remote(
                RemoteHand {
                    tiles: self.tiles.len() as u8,
                    has_current_draw: self.has_current_draw(),
                    open_chows: crate::hand::copy_melds3(&self.open_chows),
                    open_pongs: crate::hand::copy_melds3(&self.open_pongs),
                    open_kongs: crate::hand::copy_melds4(&self.open_kongs),
                    closed_kongs: crate::hand::copy_melds4(&self.closed_kongs),
                    discards: crate::hand::copy_tiles(&self.discards),
                },
            )
        }
    }
}

/// The turn information a seat is allowed to see of the authoritative turn
/// state: the call phase shows only that seat's own waiting entry.
pub open spec fn turn_projected(lt: LocalTurnState, m: MatchState, seat: Wind) -> bool {
    match m.turn_state {
        TurnState::AwaitingDraw(p) => lt == LocalTurnState::AwaitingDraw(p),
        TurnState::AwaitingDiscard(p) => lt == LocalTurnState::AwaitingDiscard(p),
        TurnState::AwaitingCalls { discarding_player, discard, calls, waiting } => lt
            matches LocalTurnState::AwaitingCalls { discarding_player: dp2, discard: d2, calls: c2 }
            && dp2 == discarding_player && d2 == discard && (match waiting.at(seat) {
            Some(l) => c2@ == l@,
            None => c2@.len() == 0,
        }),
        TurnState::MatchEnded { winner } => lt == (LocalTurnState::MatchEnded { winner }),
    }
}

/// A client view that is exactly the projection of the authoritative state
/// for one seat: the own hand in full, every other hand redacted, the turn
/// state filtered to what the seat may know.
pub open spec fn projects(ls: LocalState, m: MatchState, seat: Wind) -> bool {
    &&& ls.id == m.id
    &&& ls.seat == seat
    &&& ls.players.at(seat) is Local
    &&& crate::hand::hand_eq(m.players.at(seat), ls.players.at(seat)->Local_0)
    &&& forall|q: Wind|
        q != seat ==> (#[trigger] ls.players.at(q)) is Remote && remote_of(
            m.players.at(q),
            ls.players.at(q)->Remote_0,
        )
    &&& turn_projected(ls.turn_state, m, seat)
}

impl MatchState {
    /// Builds the view of this match that one seat is allowed to see.
    ///
    /// The redaction lives here, not at broadcast time: what leaves this
    /// function is everything a client may ever learn, so the concealed
    /// hands and the other seats' call options can never leak.
    pub fn local_state_for_player(&self, seat: Wind) -> (r: LocalState)
        requires
            match_wf(*self),
        ensures
            projects(r, *self, seat),
            local_wf(r),
    {
        proof {
            assert(forall|q: Wind| hand_budget_ok(#[trigger] self.players.at(q)));
            assert(self.players.at(seat).tiles@.len() <= 13);
            assert forall|q: Wind| (#[trigger] self.players.at(q)).tiles@.len() < 256 by {
                assert(hand_budget_ok(self.players.at(q)));
            }
        }
        let east = self.players.get(Wind::East).to_local(matches_seat(seat, Wind::East));
        let south = self.players.get(Wind::South).to_local(matches_seat(seat, Wind::South));
        let west = self.players.get(Wind::West).to_local(matches_seat(seat, Wind::West));
        let north = self.players.get(Wind::North).to_local(matches_seat(seat, Wind::North));
        let turn = match &self.turn_state {
            TurnState::AwaitingDraw(p) => LocalTurnState::AwaitingDraw(*p),
            TurnState::AwaitingDiscard(p) => LocalTurnState::AwaitingDiscard(*p),
            TurnState::AwaitingCalls { discarding_player, discard, waiting, .. } => {
                let calls: Vec<Call> = match waiting.get(seat) {
                    Some(l) => crate::hand::copy_calls(l),
                    None => Vec::new(),
                };
                LocalTurnState::AwaitingCalls {
                    discarding_player: *discarding_player,
                    discard: *discard,
                    calls,
                }
            },
            TurnState::MatchEnded { winner } => LocalTurnState::MatchEnded { winner: *winner },
        };
        let r = LocalState {
            id: self.id,
            seat,
            players: PerSeat { east, south, west, north },
            turn_state: turn,
        };
        proof {
            assert forall|q: Wind| q != seat implies (#[trigger] r.players.at(q)) is Remote
                && remote_of(self.players.at(q), r.players.at(q)->Remote_0) by {}
            assert(r.players.at(seat) is Local);
        }
        r
    }
}

/// Whether two winds are the same seat.
fn matches_seat(a: Wind, b: Wind) -> (r: bool)
    ensures
        r == (a == b),
{
    a == b
}

// ---------------------------------------------------------------------------
// Deep comparisons, for tests and reconciliation.
// ---------------------------------------------------------------------------

pub open spec fn remote_hand_eq(a: RemoteHand, b: RemoteHand) -> bool {
    &&& a.tiles == b.tiles
    &&& a.has_current_draw == b.has_current_draw
    &&& a.open_chows@ == b.open_chows@
    &&& a.open_pongs@ == b.open_pongs@
    &&& a.open_kongs@ == b.open_kongs@
    &&& a.closed_kongs@ == b.closed_kongs@
    &&& a.discards@ == b.discards@
}

pub open spec fn local_hand_eq(a: LocalHand, b: LocalHand) -> bool {
    match (a, b) {
        (LocalHand::Local(x), LocalHand::Local(y)) => crate::hand::hand_eq(x, y),
        (LocalHand::Remote(x), LocalHand::Remote(y)) => remote_hand_eq(x, y),
        _ => false,
    }
}

pub open spec fn local_turn_eq(a: LocalTurnState, b: LocalTurnState) -> bool {
    match (a, b) {
        (LocalTurnState::AwaitingDraw(x), LocalTurnState::AwaitingDraw(y)) => x == y,
        (LocalTurnState::AwaitingDiscard(x), LocalTurnState::AwaitingDiscard(y)) => x == y,
        (
            LocalTurnState::AwaitingCalls { discarding_player: dp1, discard: d1, calls: c1 },
            LocalTurnState::AwaitingCalls { discarding_player: dp2, discard: d2, calls: c2 },
        ) => dp1 == dp2 && d1 == d2 && c1@ == c2@,
        (
            LocalTurnState::MatchEnded { winner: w1 },
            LocalTurnState::MatchEnded { winner: w2 },
        ) => w1 == w2,
        _ => false,
    }
}

pub open spec fn local_state_eq(a: LocalState, b: LocalState) -> bool {
    &&& a.id == b.id
    &&& a.seat == b.seat
    &&& forall|q: Wind| local_hand_eq(#[trigger] a.players.at(q), b.players.at(q))
    &&& local_turn_eq(a.turn_state, b.turn_state)
}

impl vstd::std_specs::cmp::PartialEqSpecImpl for RemoteHand {
    open spec fn obeys_eq_spec() -> bool {
        true
    }

    open spec fn eq_spec(&self, other: &RemoteHand) -> bool {
        remote_hand_eq(*self, *other)
    }
}

impl PartialEq for RemoteHand {
    fn eq(&self, other: &Self) -> (r: bool) {
        self.tiles == other.tiles && self.has_current_draw == other.has_current_draw
            && crate::hand::melds3_eq(&self.open_chows, &other.open_chows)
            && crate::hand::melds3_eq(&self.open_pongs, &other.open_pongs)
            && crate::hand::melds4_eq(&self.open_kongs, &other.open_kongs)
            && crate::hand::melds4_eq(&self.closed_kongs, &other.closed_kongs)
            && crate::hand::tiles_eq(&self.discards, &other.discards)
    }
}

impl Eq for RemoteHand {

}

impl vstd::std_specs::cmp::PartialEqSpecImpl for LocalHand {
    open spec fn obeys_eq_spec() -> bool {
        true
    }

    open spec fn eq_spec(&self, other: &LocalHand) -> bool {
        local_hand_eq(*self, *other)
    }
}

impl PartialEq for LocalHand {
    fn eq(&self, other: &Self) -> (r: bool) {
        match (self, other) {
            (LocalHand::Local(x), LocalHand::Local(y)) => x == y,
            (LocalHand::Remote(x), LocalHand::Remote(y)) => x == y,
            _ => false,
        }
    }
}

impl Eq for LocalHand {

}

impl vstd::std_specs::cmp::PartialEqSpecImpl for LocalTurnState {
    open spec fn obeys_eq_spec() -> bool {
        true
    }

    open spec fn eq_spec(&self, other: &LocalTurnState) -> bool {
        local_turn_eq(*self, *other)
    }
}

impl PartialEq for LocalTurnState {
    fn eq(&self, other: &Self) -> (r: bool) {
        match (self, other) {
            (LocalTurnState::AwaitingDraw(x), LocalTurnState::AwaitingDraw(y)) => *x == *y,
            (LocalTurnState::AwaitingDiscard(x), LocalTurnState::AwaitingDiscard(y)) => *x == *y,
            (
                LocalTurnState::AwaitingCalls { discarding_player: dp1, discard: d1, calls: c1 },
                LocalTurnState::AwaitingCalls { discarding_player: dp2, discard: d2, calls: c2 },
            ) => *dp1 == *dp2 && *d1 == *d2 && crate::hand::calls_eq(c1, c2),
            (
                LocalTurnState::MatchEnded { winner: w1 },
                LocalTurnState::MatchEnded { winner: w2 },
            ) => match (w1, w2) {
                (Some(x), Some(y)) => *x == *y,
                (None, None) => true,
                _ => false,
            },
            _ => false,
        }
    }
}

impl Eq for LocalTurnState {

}

impl vstd::std_specs::cmp::PartialEqSpecImpl for LocalState {
    open spec fn obeys_eq_spec() -> bool {
        true
    }

    open spec fn eq_spec(&self, other: &LocalState) -> bool {
        local_state_eq(*self, *other)
    }
}

impl PartialEq for LocalState {
    fn eq(&self, other: &Self) -> (r: bool) {
        let players_eq = self.players.get(Wind::East) == other.players.get(Wind::East)
            && self.players.get(Wind::South) == other.players.get(Wind::South)
            && self.players.get(Wind::West) == other.players.get(Wind::West)
            && self.players.get(Wind::North) == other.players.get(Wind::North);
        proof {
            if players_eq {
                assert forall|q: Wind| local_hand_eq(
                    #[trigger] self.players.at(q),
                    other.players.at(q),
                ) by {
                    match q {
                        Wind::East => {},
                        Wind::South => {},
                        Wind::West => {},
                        Wind::North => {},
                    }
                }
            }
        }
        self.id.0 == other.id.0 && self.seat == other.seat && players_eq && self.turn_state
            == other.turn_state
    }
}

impl Eq for LocalState {

}



// ---------------------------------------------------------------------------
// Projection fidelity: replaying the emitted events keeps each client's
// view equal to the server's projection for its seat.
// ---------------------------------------------------------------------------

/// The relation a client view keeps to the authoritative state throughout
/// a call phase: like [`projects`], except that the client still shows its
/// own full option list while the server's waiting map shrinks as seats
/// answer — which is exactly what each client may know.
pub open spec fn projects_during_calls(ls: LocalState, m: MatchState, seat: Wind) -> bool {
    &&& ls.id == m.id
    &&& ls.seat == seat
    &&& ls.players.at(seat) is Local
    &&& crate::hand::hand_eq(m.players.at(seat), ls.players.at(seat)->Local_0)
    &&& forall|q: Wind|
        q != seat ==> (#[trigger] ls.players.at(q)) is Remote && remote_of(
            m.players.at(q),
            ls.players.at(q)->Remote_0,
        )
    &&& m.turn_state is AwaitingCalls
    &&& ({
        let (dp, d, cs, w) = calls_parts(m.turn_state);
        &&& ls.turn_state matches LocalTurnState::AwaitingCalls {
            discarding_player: dp2,
            discard: d2,
            calls: lc,
        } && dp2 == dp && d2 == d && (if seat == dp {
            lc@.len() == 0
        } else {
            possible_calls_ok(
                lc@,
                m.players.at(seat).tiles@,
                tile_of_id(d.0 as int),
                wind_next(dp) == seat,
            )
        })
    })
}

/// Right after a discard, the exact projection is also the stable
/// call-phase relation.
pub proof fn lemma_projects_to_during(ls: LocalState, m: MatchState, seat: Wind)
    requires
        match_wf(m),
        projects(ls, m, seat),
        m.turn_state is AwaitingCalls,
        ({
            let (dp, d, cs, w) = calls_parts(m.turn_state);
            waiting_ok(w, m, dp, tile_of_id(d.0 as int))
        }),
    ensures
        projects_during_calls(ls, m, seat),
{
    let (dp, d, cs, w) = calls_parts(m.turn_state);
    let v = tile_of_id(d.0 as int);
    match m.turn_state {
        TurnState::AwaitingCalls { discarding_player, discard, calls, waiting } => {
            if seat != dp {
                match waiting.at(seat) {
                    Some(l) => {
                        assert(possible_calls_ok(l@, m.players.at(seat).tiles@, v, wind_next(dp)
                            == seat));
                    },
                    None => {
                        let l2 = choose|l2: Seq<Call>|
                            #![trigger l2.len()]
                            possible_calls_ok(l2, m.players.at(seat).tiles@, v, wind_next(dp)
                                == seat) && l2.len() == 0;
                        match ls.turn_state {
                            LocalTurnState::AwaitingCalls { calls: lc, .. } => {
                                assert(lc@ =~= l2);
                            },
                            _ => {},
                        }
                    },
                }
            }
        },
        _ => {},
    }
}

/// While seats answer the call phase, the client views stand still and
/// stay faithful.
pub proof fn lemma_mirror_register(m1: MatchState, m2: MatchState, ls: LocalState, seat: Wind)
    requires
        projects_during_calls(ls, m1, seat),
        m2.players == m1.players,
        m2.id == m1.id,
        m2.turn_state is AwaitingCalls,
        calls_parts(m2.turn_state).0 == calls_parts(m1.turn_state).0,
        calls_parts(m2.turn_state).1 == calls_parts(m1.turn_state).1,
    ensures
        projects_during_calls(ls, m2, seat),
{
}

/// Replaying a draw preserves the projection: the drawing seat mirrors the
/// full tile, every other client only the fact of the draw.
pub proof fn lemma_mirror_draw(
    m1: MatchState,
    m2: MatchState,
    ls1: LocalState,
    ls2: LocalState,
    seat: Wind,
    p: Wind,
    t: TileInstance,
)
    requires
        match_wf(m1),
        projects(ls1, m1, seat),
        m1.turn_state == TurnState::AwaitingDraw(p),
        m1.wall@.len() > 0,
        t == m1.wall@.last(),
        m2.id == m1.id,
        m2.turn_state == TurnState::AwaitingDiscard(p),
        crate::match_state::hand_drawn(m1.players.at(p), m2.players.at(p), t),
        forall|q: Wind| q != p ==> m2.players.at(q) == m1.players.at(q),
        p == seat ==> applied_local_draw(ls1, ls2, t.id),
        p != seat ==> applied_remote_draw(ls1, ls2, p),
    ensures
        projects(ls2, m2, seat),
        p == seat ==> local_draw_fits(ls1, t.id),
        p != seat ==> remote_draw_fits(ls1, p),
{
    crate::match_state::lemma_wall_instances(m1);
    assert(instance_ok(t));
    assert(t == instance_of_id(t.id.0 as int));
    if p == seat {
        assert(local_draw_fits(ls1, t.id));
        assert forall|q: Wind|
            q != seat implies (#[trigger] ls2.players.at(q)) is Remote && remote_of(
            m2.players.at(q),
            ls2.players.at(q)->Remote_0,
        ) by {
            assert(ls2.players.at(q) == ls1.players.at(q));
            assert(m2.players.at(q) == m1.players.at(q));
        }
    } else {
        assert(remote_draw_fits(ls1, p));
        assert forall|q: Wind|
            q != seat implies (#[trigger] ls2.players.at(q)) is Remote && remote_of(
            m2.players.at(q),
            ls2.players.at(q)->Remote_0,
        ) by {
            if q != p {
                assert(ls2.players.at(q) == ls1.players.at(q));
                assert(m2.players.at(q) == m1.players.at(q));
            }
        }
        assert(ls2.players.at(seat) == ls1.players.at(seat));
        assert(m2.players.at(seat) == m1.players.at(seat));
    }
}

/// Replaying the end of the match preserves the projection.
pub proof fn lemma_mirror_match_end(
    m1: MatchState,
    m2: MatchState,
    ls1: LocalState,
    ls2: LocalState,
    seat: Wind,
    winner: Option<Wind>,
)
    requires
        projects(ls1, m1, seat),
        m2.id == m1.id,
        m2.players == m1.players,
        m2.turn_state == (TurnState::MatchEnded { winner }),
        ls2.id == ls1.id,
        ls2.seat == ls1.seat,
        ls2.players == ls1.players,
        ls2.turn_state == (LocalTurnState::MatchEnded { winner }),
    ensures
        projects(ls2, m2, seat),
{
}

/// Replaying an all-pass outcome preserves the projection: play moves to
/// the seat left of the discarder on both sides.
pub proof fn lemma_mirror_decide_pass(
    m1: MatchState,
    m2: MatchState,
    ls1: LocalState,
    ls2: LocalState,
    seat: Wind,
)
    requires
        projects_during_calls(ls1, m1, seat),
        m2.id == m1.id,
        m2.players == m1.players,
        m2.turn_state == TurnState::AwaitingDraw(wind_next(calls_parts(m1.turn_state).0)),
        ls2.id == ls1.id,
        ls2.seat == ls1.seat,
        ls2.players == ls1.players,
        ls2.turn_state == LocalTurnState::AwaitingDraw(
            wind_next(ls1.turn_state->AwaitingCalls_discarding_player),
        ),
    ensures
        projects(ls2, m2, seat),
{
}



/// Shared hand-side reasoning for replaying a discard: both cases of the
/// server discard are mirrored exactly, tile for tile.
pub proof fn lemma_mirror_discard_hands(
    m1: MatchState,
    m2: MatchState,
    ls1: LocalState,
    ls2: LocalState,
    seat: Wind,
    p: Wind,
    tile: TileId,
)
    requires
        match_wf(m1),
        projects(ls1, m1, seat),
        m1.turn_state == TurnState::AwaitingDiscard(p),
        crate::match_state::conserves_tiles(m2),
        m2.id == m1.id,
        crate::match_state::hand_discarded(
            m1.players.at(p),
            m2.players.at(p),
            tile,
            crate::match_state::discarded_draw(m1.players.at(p)),
        ),
        forall|q: Wind| q != p ==> m2.players.at(q) == m1.players.at(q),
        tile.0 < 136,
        applied_discard(ls1, ls2, p, tile),
    ensures
        ls2.id == m2.id,
        ls2.seat == seat,
        ls2.players.at(seat) is Local,
        crate::hand::hand_eq(m2.players.at(seat), ls2.players.at(seat)->Local_0),
        forall|q: Wind|
            q != seat ==> (#[trigger] ls2.players.at(q)) is Remote && remote_of(
                m2.players.at(q),
                ls2.players.at(q)->Remote_0,
            ),
        discard_fits(ls1, p, tile),
{
    let h1 = m1.players.at(p);
    let h2 = m2.players.at(p);
    crate::match_state::lemma_hand_tiles_facts(m1, p);
    if h1.current_draw is Some {
        crate::match_state::lemma_draw_instance(m1, p);
    }
    // The moved instance is canonical, so rebuilding it from the id gives
    // the very same tile.
    assert(crate::match_state::discarded_instance(
        h1,
        tile,
        crate::match_state::discarded_draw(h1),
    ) == instance_of_id(tile.0 as int)) by {
        if crate::hand::contains_id(h1.tiles@, tile) {
            crate::hand::lemma_id_index(h1.tiles@, tile);
        }
    }
    if p == seat {
        assert(crate::hand::hand_eq(m2.players.at(seat), ls2.players.at(seat)->Local_0)) by {
            let o1 = own_hand(ls1);
            let o2 = own_hand(ls2);
            assert(o1.tiles@ == h1.tiles@);
            assert(crate::hand::contains_id(o1.tiles@, tile) == crate::hand::contains_id(
                h1.tiles@,
                tile,
            ));
        }
        assert forall|q: Wind|
            q != seat implies (#[trigger] ls2.players.at(q)) is Remote && remote_of(
            m2.players.at(q),
            ls2.players.at(q)->Remote_0,
        ) by {
            assert(ls2.players.at(q) == ls1.players.at(q));
            assert(m2.players.at(q) == m1.players.at(q));
        }
        assert(discard_fits(ls1, p, tile)) by {
            assert(own_hand(ls1).current_draw == h1.current_draw);
        }
    } else {
        assert forall|q: Wind|
            q != seat implies (#[trigger] ls2.players.at(q)) is Remote && remote_of(
            m2.players.at(q),
            ls2.players.at(q)->Remote_0,
        ) by {
            if q != p {
                assert(ls2.players.at(q) == ls1.players.at(q));
                assert(m2.players.at(q) == m1.players.at(q));
            } else {
                assert(remote_of(h1, ls1.players.at(p)->Remote_0));
                assert(h2.tiles@.len() == h1.tiles@.len()) by {
                    if crate::hand::contains_id(h1.tiles@, tile) {
                        crate::hand::lemma_id_index(h1.tiles@, tile);
                    }
                }
            }
        }
        assert(ls2.players.at(seat) == ls1.players.at(seat));
        assert(m2.players.at(seat) == m1.players.at(seat));
        assert(discard_fits(ls1, p, tile)) by {
            assert(remote_of(h1, ls1.players.at(p)->Remote_0));
            // At most three matching copies can sit in the own hand once
            // the tile lies in the discarder's pile.
            let other: Wind = if wind_next(seat) == p {
                wind_next(wind_next(seat))
            } else {
                wind_next(seat)
            };
            if other == seat || other == p {
                assert(false);
            }
            crate::match_state::lemma_call_count_bounds(m2, p, seat, other);
            assert(m2.players.at(p).discards@.last() == instance_of_id(tile.0 as int));
            assert(m2.players.at(seat).tiles@ == own_hand(ls1).tiles@);
        }
    }
}


/// Replaying a discard that opened a call phase preserves the projection,
/// and in particular each client computes for itself exactly the calls the
/// server recorded for its seat.
pub proof fn lemma_mirror_discard_calls(
    m1: MatchState,
    m2: MatchState,
    ls1: LocalState,
    ls2: LocalState,
    seat: Wind,
    p: Wind,
    tile: TileId,
)
    requires
        match_wf(m1),
        match_wf(m2),
        projects(ls1, m1, seat),
        m1.turn_state == TurnState::AwaitingDiscard(p),
        m2.id == m1.id,
        crate::match_state::hand_discarded(
            m1.players.at(p),
            m2.players.at(p),
            tile,
            crate::match_state::discarded_draw(m1.players.at(p)),
        ),
        forall|q: Wind| q != p ==> m2.players.at(q) == m1.players.at(q),
        tile.0 < 136,
        applied_discard(ls1, ls2, p, tile),
        m2.turn_state is AwaitingCalls,
        calls_parts(m2.turn_state).0 == p,
        calls_parts(m2.turn_state).1 == tile,
        waiting_ok(calls_parts(m2.turn_state).3, m2, p, tile_of_id(tile.0 as int)),
    ensures
        projects(ls2, m2, seat),
        projects_during_calls(ls2, m2, seat),
        discard_fits(ls1, p, tile),
{
    lemma_mirror_discard_hands(m1, m2, ls1, ls2, seat, p, tile);
    let v = tile_of_id(tile.0 as int);
    let w = calls_parts(m2.turn_state).3;
    // The turn projection: this seat's waiting entry is exactly the call
    // list the client computed for itself.
    match ls2.turn_state {
        LocalTurnState::AwaitingCalls { discarding_player: dp2, discard: d2, calls: lc } => {
            if seat == p {
                assert(w.at(seat) is None);
            } else {
                assert(possible_calls_ok(lc@, own_hand(ls1).tiles@, v, wind_next(p) == seat));
                assert(own_hand(ls1).tiles@ == m2.players.at(seat).tiles@);
                match w.at(seat) {
                    Some(l) => {
                        assert(possible_calls_ok(
                            l@,
                            m2.players.at(seat).tiles@,
                            v,
                            wind_next(p) == seat,
                        ));
                        crate::hand::lemma_possible_calls_unique(
                            lc@,
                            l@,
                            m2.players.at(seat).tiles@,
                            v,
                            wind_next(p) == seat,
                        );
                    },
                    None => {
                        let l2 = choose|l2: Seq<Call>|
                            #![trigger l2.len()]
                            possible_calls_ok(l2, m2.players.at(seat).tiles@, v, wind_next(p)
                                == seat) && l2.len() == 0;
                        crate::hand::lemma_possible_calls_unique(
                            lc@,
                            l2,
                            m2.players.at(seat).tiles@,
                            v,
                            wind_next(p) == seat,
                        );
                    },
                }
            }
        },
        _ => {},
    }
}

/// After a discard that nobody can call, the client still sits in its call
/// phase with no options.
pub open spec fn pass_pending(
    ls: LocalState,
    m: MatchState,
    seat: Wind,
    p: Wind,
    tile: TileId,
) -> bool {
    &&& ls.id == m.id
    &&& ls.seat == seat
    &&& ls.players.at(seat) is Local
    &&& crate::hand::hand_eq(m.players.at(seat), ls.players.at(seat)->Local_0)
    &&& forall|q: Wind|
        q != seat ==> (#[trigger] ls.players.at(q)) is Remote && remote_of(
            m.players.at(q),
            ls.players.at(q)->Remote_0,
        )
    &&& m.turn_state == TurnState::AwaitingDraw(wind_next(p))
    &&& ls.turn_state matches LocalTurnState::AwaitingCalls {
        discarding_player: dp2,
        discard: d2,
        calls: lc,
    } && dp2 == p && d2 == tile && lc@.len() == 0
}

/// Replaying a discard that nobody can call leaves the client one pass
/// event behind the server.
pub proof fn lemma_mirror_discard_nocalls(
    m1: MatchState,
    m2: MatchState,
    ls1: LocalState,
    ls2: LocalState,
    seat: Wind,
    p: Wind,
    tile: TileId,
)
    requires
        match_wf(m1),
        match_wf(m2),
        projects(ls1, m1, seat),
        m1.turn_state == TurnState::AwaitingDiscard(p),
        m2.id == m1.id,
        crate::match_state::hand_discarded(
            m1.players.at(p),
            m2.players.at(p),
            tile,
            crate::match_state::discarded_draw(m1.players.at(p)),
        ),
        forall|q: Wind| q != p ==> m2.players.at(q) == m1.players.at(q),
        tile.0 < 136,
        applied_discard(ls1, ls2, p, tile),
        m2.turn_state == TurnState::AwaitingDraw(wind_next(p)),
        forall|q: Wind| q != p ==> #[trigger] crate::match_state::no_calls_for(
            m2,
            q,
            p,
            tile_of_id(tile.0 as int),
        ),
    ensures
        pass_pending(ls2, m2, seat, p, tile),
        discard_fits(ls1, p, tile),
{
    lemma_mirror_discard_hands(m1, m2, ls1, ls2, seat, p, tile);
    let v = tile_of_id(tile.0 as int);
    match ls2.turn_state {
        LocalTurnState::AwaitingCalls { discarding_player: dp2, discard: d2, calls: lc } => {
            if seat != p {
                assert(crate::match_state::no_calls_for(m2, seat, p, v));
                let l2 = choose|l2: Seq<Call>|
                    #![trigger l2.len()]
                    possible_calls_ok(l2, m2.players.at(seat).tiles@, v, wind_next(p) == seat)
                        && l2.len() == 0;
                assert(own_hand(ls1).tiles@ == m2.players.at(seat).tiles@);
                crate::hand::lemma_possible_calls_unique(
                    lc@,
                    l2,
                    m2.players.at(seat).tiles@,
                    v,
                    wind_next(p) == seat,
                );
            }
        },
        _ => {},
    }
}

/// The pass event then realigns the client with the server.
pub proof fn lemma_mirror_pass_after(
    m: MatchState,
    ls2: LocalState,
    ls3: LocalState,
    seat: Wind,
    p: Wind,
    tile: TileId,
)
    requires
        pass_pending(ls2, m, seat, p, tile),
        ls3.id == ls2.id,
        ls3.seat == ls2.seat,
        ls3.players == ls2.players,
        ls3.turn_state == LocalTurnState::AwaitingDraw(
            wind_next(ls2.turn_state->AwaitingCalls_discarding_player),
        ),
    ensures
        projects(ls3, m, seat),
{
}

/// The winning call the server decided fits the client's view and applies
/// to it: the claimed pile position matches, the own seat's submitted call
/// is among its options, and the caller's stored hand can make the meld.
#[verifier::rlimit(100)]
pub proof fn lemma_mirror_decide_enabled(
    m1: MatchState,
    ls1: LocalState,
    seat: Wind,
    w0: Wind,
    c0: Call,
)
    requires
        match_wf(m1),
        projects_during_calls(ls1, m1, seat),
        m1.turn_state is AwaitingCalls,
        ({
            let (dp, d, cs, w) = calls_parts(m1.turn_state);
            &&& cs.at(w0) == Some(c0)
            &&& w0 != dp
            &&& m1.players.at(dp).discards@.len() > 0
        }),
    ensures
        ({
            let (dp, d, cs, w) = calls_parts(m1.turn_state);
            let fc = FinalCall { caller: w0, called_from: dp, discard: d, winning_call: c0 };
            call_fits(ls1, fc) && call_applies(ls1, fc)
        }),
{
    let (dp, d, cs, w) = calls_parts(m1.turn_state);
    let v = tile_of_id(d.0 as int);
    let fc = FinalCall { caller: w0, called_from: dp, discard: d, winning_call: c0 };
    let disc = m1.players.at(dp).discards@.last();
    let other: Wind = if wind_next(dp) == w0 {
        wind_next(wind_next(dp))
    } else {
        wind_next(dp)
    };
    crate::match_state::lemma_call_count_bounds(m1, dp, w0, other);
    crate::match_state::lemma_hand_tiles_facts(m1, w0);
    crate::match_state::lemma_disc_not_in_hand(m1, dp, w0);
    assert(instance_ok(disc));
    assert(disc.id == d);
    assert(disc.tile == v);
    assert(call_valid(m1.players.at(w0).tiles@, v, c0));
    assert(claimed_instance(ls1, dp) == disc) by {
        if dp == seat {
        } else {
            assert(remote_of(m1.players.at(dp), ls1.players.at(dp)->Remote_0));
        }
    }
    // The event fits: the ids, the pile, and — for the own seat — the
    // submitted call being among the client's own options.
    assert(call_fits(ls1, fc)) by {
        if w0 == seat {
            let l = choose|l: Seq<Call>|
                #![trigger l.len()]
                possible_calls_ok(l, m1.players.at(seat).tiles@, v, wind_next(dp) == seat)
                    && l.contains(c0);
            match ls1.turn_state {
                LocalTurnState::AwaitingCalls { calls: lc, .. } => {
                    assert(possible_calls_ok(
                        lc@,
                        m1.players.at(seat).tiles@,
                        v,
                        wind_next(dp) == seat,
                    )) by {
                        assert(own_hand(ls1).tiles@ == m1.players.at(seat).tiles@);
                    }
                    crate::hand::lemma_possible_calls_unique(
                        lc@,
                        l,
                        m1.players.at(seat).tiles@,
                        v,
                        wind_next(dp) == seat,
                    );
                },
                _ => {},
            }
        }
        if dp == seat {
        } else {
            assert(remote_of(m1.players.at(dp), ls1.players.at(dp)->Remote_0));
        }
    }
    // The call applies on the client side.
    let s = m1.players.at(w0).tiles@;
    assert(call_applies(ls1, fc)) by {
        if w0 == seat {
            assert(own_hand(ls1).tiles@ == s);
            match c0 {
                Call::Kan(t) => {
                    assert(t == v);
                },
                _ => {},
            }
        } else {
            let rh = ls1.players.at(w0)->Remote_0;
            assert(remote_of(m1.players.at(w0), rh));
            match c0 {
                Call::Chii(a, b) => {
                    crate::hand::lemma_id_index(s, a);
                    crate::hand::lemma_id_index(s, b);
                    let ia = id_index(s, a);
                    let ib = id_index(s, b);
                    assert(s[ia] == instance_of_id(a.0 as int));
                    assert(s[ib] == instance_of_id(b.0 as int));
                    assert(ia != ib) by {
                        if ia == ib {
                            assert(!crate::tile::is_chow_spec(v, s[ia].tile, s[ib].tile));
                        }
                    }
                    assert(rh.tiles >= 2) by {
                        assert(s.len() >= 2);
                    }
                },
                Call::Pon(a, b) => {
                    crate::hand::lemma_id_index(s, a);
                    crate::hand::lemma_id_index(s, b);
                    let ia = id_index(s, a);
                    let ib = id_index(s, b);
                    assert(s[ia] == instance_of_id(a.0 as int));
                    assert(s[ib] == instance_of_id(b.0 as int));
                    assert(crate::hand::tile_of_in(s, a) == v);
                    assert(crate::hand::tile_of_in(s, b) == v);
                    assert(rh.tiles >= 2) by {
                        assert(ia != ib);
                        assert(s.len() >= 2);
                    }
                },
                Call::Kan(t) => {
                    assert(t == v);
                    crate::tile::lemma_id_value_valid(disc.id.0 as int);
                    assert(valid_tile(t));
                    assert(quad_has(all_instances_spec(t), disc.id)) by {
                        let base = crate::tile::index_of_value(t) * 4;
                        assert(disc.id.0 as int / 4 == crate::tile::index_of_value(t));
                        assert(base <= disc.id.0 < base + 4);
                        assert(all_instances_spec(t).0.id == TileId(base as u8));
                        assert(all_instances_spec(t).1.id == TileId((base + 1) as u8));
                        assert(all_instances_spec(t).2.id == TileId((base + 2) as u8));
                        assert(all_instances_spec(t).3.id == TileId((base + 3) as u8));
                    }
                    assert(rh.tiles >= 3) by {
                        crate::hand::lemma_count_le_len(s, t);
                    }
                },
                Call::Ron => {},
            }
        }
    }
}

/// Replaying the winning call preserves the projection: the caller's open
/// meld appears identically in the authoritative state and in every
/// client's view, whether the client sees the caller's full hand or only
/// its redaction.
#[verifier::rlimit(100)]
pub proof fn lemma_mirror_decide_call(
    m1: MatchState,
    m2: MatchState,
    ls1: LocalState,
    ls2: LocalState,
    seat: Wind,
    w0: Wind,
    c0: Call,
)
    requires
        match_wf(m1),
        projects_during_calls(ls1, m1, seat),
        m1.turn_state is AwaitingCalls,
        ({
            let (dp, d, cs, w) = calls_parts(m1.turn_state);
            &&& cs.at(w0) == Some(c0)
            &&& w0 != dp
            &&& m1.players.at(dp).discards@.len() > 0
            &&& m2.id == m1.id
            &&& crate::match_state::hand_popped(m1.players.at(dp), m2.players.at(dp))
            &&& crate::match_state::hand_called(
                m1.players.at(w0),
                m2.players.at(w0),
                m1.players.at(dp).discards@.last(),
                c0,
            )
            &&& forall|q: Wind| q != dp && q != w0 ==> m2.players.at(q) == m1.players.at(q)
            &&& m2.turn_state == TurnState::AwaitingDraw(wind_next(w0))
            &&& applied_call(
                ls1,
                ls2,
                FinalCall { caller: w0, called_from: dp, discard: d, winning_call: c0 },
            )
        }),
    ensures
        projects(ls2, m2, seat),
        ({
            let (dp, d, cs, w) = calls_parts(m1.turn_state);
            let fc = FinalCall { caller: w0, called_from: dp, discard: d, winning_call: c0 };
            call_fits(ls1, fc) && call_applies(ls1, fc)
        }),
{
    let (dp, d, cs, w) = calls_parts(m1.turn_state);
    let v = tile_of_id(d.0 as int);
    let fc = FinalCall { caller: w0, called_from: dp, discard: d, winning_call: c0 };
    let disc = m1.players.at(dp).discards@.last();
    let other: Wind = if wind_next(dp) == w0 {
        wind_next(wind_next(dp))
    } else {
        wind_next(dp)
    };
    crate::match_state::lemma_call_count_bounds(m1, dp, w0, other);
    crate::match_state::lemma_hand_tiles_facts(m1, w0);
    crate::match_state::lemma_disc_not_in_hand(m1, dp, w0);
    assert(instance_ok(disc));
    assert(disc.tile == v);
    assert(call_valid(m1.players.at(w0).tiles@, v, c0));
    assert(claimed_instance(ls1, dp) == disc) by {
        if dp == seat {
        } else {
            assert(remote_of(m1.players.at(dp), ls1.players.at(dp)->Remote_0));
        }
    }
    lemma_mirror_decide_enabled(m1, ls1, seat, w0, c0);
    let s = m1.players.at(w0).tiles@;
    // The mirrored state is again the projection.
    assert forall|q: Wind|
        q != seat implies (#[trigger] ls2.players.at(q)) is Remote && remote_of(
        m2.players.at(q),
        ls2.players.at(q)->Remote_0,
    ) by {
        if q != dp && q != w0 {
            assert(ls2.players.at(q) == ls1.players.at(q));
            assert(m2.players.at(q) == m1.players.at(q));
        } else if q == dp {
            assert(remote_of(m1.players.at(dp), ls1.players.at(dp)->Remote_0));
        } else {
            assert(remote_of(m1.players.at(w0), ls1.players.at(w0)->Remote_0));
            match c0 {
                Call::Chii(a, b) => {
                    crate::hand::lemma_id_index(s, a);
                    crate::hand::lemma_id_index(s, b);
                    lemma_two_id_len(s, a, b);
                    assert(crate::hand::chii_meld(s, disc, a, b) == Meld3(
                        disc,
                        instance_of_id(a.0 as int),
                        instance_of_id(b.0 as int),
                    ));
                },
                Call::Pon(a, b) => {
                    crate::hand::lemma_id_index(s, a);
                    crate::hand::lemma_id_index(s, b);
                    lemma_two_id_len(s, a, b);
                    assert(crate::hand::pon_meld(s, disc, a, b) == Meld3(
                        disc,
                        instance_of_id(a.0 as int),
                        instance_of_id(b.0 as int),
                    ));
                },
                Call::Kan(t) => {
                    crate::match_state::lemma_kan_melds_agree(s, disc, t);
                    crate::match_state::lemma_filter_count_len(s, t);
                },
                Call::Ron => {},
            }
        }
    }
    if seat == dp {
    } else if seat == w0 {
        assert(own_hand(ls1).tiles@ == s);
    }
}

/// Removing two present ids drops the length by two.
proof fn lemma_two_id_len(s: Seq<TileInstance>, a: TileId, b: TileId)
    requires
        contains_id(s, a),
        contains_id(s, b),
        a != b,
    ensures
        remove_id(remove_id(s, a), b).len() == s.len() - 2,
        s.len() >= 2,
{
    crate::hand::lemma_id_index(s, a);
    crate::hand::lemma_remove_other_id(s, a, b);
    crate::hand::lemma_id_index(remove_id(s, a), b);
}



// ---------------------------------------------------------------------------
// Event sequences: replaying a whole trace of server operations keeps the
// client in sync, by induction over the per-event lemmas above.
// ---------------------------------------------------------------------------

/// One server-side transition, together with the data its events carry.
pub enum MatchStep {
    /// A draw by `p` of the wall tile `t`.
    Draw { p: Wind, t: TileInstance },
    /// A discard by `p` that some seat can call.
    DiscardCalls { p: Wind, tile: TileId },
    /// A discard by `p` that nobody can call; the pass event follows in
    /// the same breath.
    DiscardNoCalls { p: Wind, tile: TileId },
    /// One seat answers the call phase; no event leaves the server.
    Register,
    /// Every waiting seat passed.
    DecidePass,
    /// The call phase ends with `w0` winning on `c0`.
    DecideCall { w0: Wind, c0: Call },
    /// The match ends.
    End { winner: Option<Wind> },
}

/// What one step does to the authoritative state: exactly the successful
/// outcomes the atomic operations ensure.
pub open spec fn step_server(m1: MatchState, m2: MatchState, st: MatchStep) -> bool {
    match st {
        MatchStep::Draw { p, t } => {
            &&& m1.turn_state == TurnState::AwaitingDraw(p)
            &&& m1.wall@.len() > 0
            &&& t == m1.wall@.last()
            &&& m2.id == m1.id
            &&& m2.turn_state == TurnState::AwaitingDiscard(p)
            &&& crate::match_state::hand_drawn(m1.players.at(p), m2.players.at(p), t)
            &&& forall|q: Wind| q != p ==> m2.players.at(q) == m1.players.at(q)
        },
        MatchStep::DiscardCalls { p, tile } => {
            &&& m1.turn_state == TurnState::AwaitingDiscard(p)
            &&& m2.id == m1.id
            &&& tile.0 < 136
            &&& crate::match_state::hand_discarded(
                m1.players.at(p),
                m2.players.at(p),
                tile,
                crate::match_state::discarded_draw(m1.players.at(p)),
            )
            &&& forall|q: Wind| q != p ==> m2.players.at(q) == m1.players.at(q)
            &&& m2.turn_state is AwaitingCalls
            &&& calls_parts(m2.turn_state).0 == p
            &&& calls_parts(m2.turn_state).1 == tile
            &&& waiting_ok(calls_parts(m2.turn_state).3, m2, p, tile_of_id(tile.0 as int))
        },
        MatchStep::DiscardNoCalls { p, tile } => {
            &&& m1.turn_state == TurnState::AwaitingDiscard(p)
            &&& m2.id == m1.id
            &&& tile.0 < 136
            &&& crate::match_state::hand_discarded(
                m1.players.at(p),
                m2.players.at(p),
                tile,
                crate::match_state::discarded_draw(m1.players.at(p)),
            )
            &&& forall|q: Wind| q != p ==> m2.players.at(q) == m1.players.at(q)
            &&& m2.turn_state == TurnState::AwaitingDraw(wind_next(p))
            &&& forall|q: Wind| q != p ==> #[trigger] crate::match_state::no_calls_for(
                m2,
                q,
                p,
                tile_of_id(tile.0 as int),
            )
        },
        MatchStep::Register => {
            &&& m1.turn_state is AwaitingCalls
            &&& m2.turn_state is AwaitingCalls
            &&& m2.players == m1.players
            &&& m2.id == m1.id
            &&& calls_parts(m2.turn_state).0 == calls_parts(m1.turn_state).0
            &&& calls_parts(m2.turn_state).1 == calls_parts(m1.turn_state).1
        },
        MatchStep::DecidePass => {
            &&& m1.turn_state is AwaitingCalls
            &&& m2.players == m1.players
            &&& m2.id == m1.id
            &&& m2.turn_state == TurnState::AwaitingDraw(
                wind_next(calls_parts(m1.turn_state).0),
            )
        },
        MatchStep::DecideCall { w0, c0 } => {
            let (dp, d, cs, w) = calls_parts(m1.turn_state);
            &&& m1.turn_state is AwaitingCalls
            &&& cs.at(w0) == Some(c0)
            &&& w0 != dp
            &&& m1.players.at(dp).discards@.len() > 0
            &&& m2.id == m1.id
            &&& crate::match_state::hand_popped(m1.players.at(dp), m2.players.at(dp))
            &&& crate::match_state::hand_called(
                m1.players.at(w0),
                m2.players.at(w0),
                m1.players.at(dp).discards@.last(),
                c0,
            )
            &&& forall|q: Wind| q != dp && q != w0 ==> m2.players.at(q) == m1.players.at(q)
            &&& m2.turn_state == TurnState::AwaitingDraw(wind_next(w0))
        },
        MatchStep::End { winner } => {
            &&& m2.id == m1.id
            &&& m2.players == m1.players
            &&& m2.turn_state == (TurnState::MatchEnded { winner })
        },
    }
}

/// What replaying the step's events does to one client's view.
pub open spec fn step_client(
    ls1: LocalState,
    ls2: LocalState,
    m1: MatchState,
    st: MatchStep,
    seat: Wind,
) -> bool {
    match st {
        MatchStep::Draw { p, t } => {
            if p == seat {
                applied_local_draw(ls1, ls2, t.id)
            } else {
                applied_remote_draw(ls1, ls2, p)
            }
        },
        MatchStep::DiscardCalls { p, tile } => applied_discard(ls1, ls2, p, tile),
        MatchStep::DiscardNoCalls { p, tile } => exists|mid: LocalState|
            #[trigger] applied_discard(ls1, mid, p, tile) && pass_applied(mid, ls2),
        MatchStep::Register => ls2 == ls1,
        MatchStep::DecidePass => pass_applied(ls1, ls2),
        MatchStep::DecideCall { w0, c0 } => applied_call(
            ls1,
            ls2,
            FinalCall {
                caller: w0,
                called_from: calls_parts(m1.turn_state).0,
                discard: calls_parts(m1.turn_state).1,
                winning_call: c0,
            },
        ),
        MatchStep::End { winner } => {
            &&& ls2.id == ls1.id
            &&& ls2.seat == ls1.seat
            &&& ls2.players == ls1.players
            &&& ls2.turn_state == (LocalTurnState::MatchEnded { winner })
        },
    }
}

/// The client consumed a pass event.
pub open spec fn pass_applied(ls1: LocalState, ls2: LocalState) -> bool {
    &&& ls1.turn_state is AwaitingCalls
    &&& ls2.id == ls1.id
    &&& ls2.seat == ls1.seat
    &&& ls2.players == ls1.players
    &&& ls2.turn_state == LocalTurnState::AwaitingDraw(
        wind_next(ls1.turn_state->AwaitingCalls_discarding_player),
    )
}

/// The one invariant the replay keeps: outside a call phase the view is
/// the exact projection; during one it is the projection that still shows
/// the seat's own options.
pub open spec fn in_sync(ls: LocalState, m: MatchState, seat: Wind) -> bool {
    if m.turn_state is AwaitingCalls {
        projects_during_calls(ls, m, seat)
    } else {
        projects(ls, m, seat)
    }
}

/// Replaying any trace of server operations commutes: a client that
/// starts from the projection of the initial state and replays every
/// event in order holds, after each step, the projection of the state the
/// server reached — with its own call options standing in during call
/// phases.
pub proof fn lemma_mirror_trace(
    ms: Seq<MatchState>,
    lss: Seq<LocalState>,
    steps: Seq<MatchStep>,
    seat: Wind,
)
    requires
        ms.len() == steps.len() + 1,
        lss.len() == steps.len() + 1,
        forall|i: int| 0 <= i < ms.len() ==> match_wf(#[trigger] ms[i]),
        forall|i: int| 0 <= i < steps.len() ==> step_server(ms[i], ms[i + 1], #[trigger] steps[i]),
        forall|i: int| 0 <= i < steps.len() ==> step_client(
            lss[i],
            lss[i + 1],
            ms[i],
            #[trigger] steps[i],
            seat,
        ),
        in_sync(lss[0], ms[0], seat),
    ensures
        in_sync(lss[steps.len() as int], ms[steps.len() as int], seat),
    decreases steps.len(),
{
    let n = steps.len() as int;
    if n > 0 {
        let pms = ms.take(n);
        let plss = lss.take(n);
        let psteps = steps.take(n - 1);
        assert forall|i: int| 0 <= i < pms.len() implies match_wf(#[trigger] pms[i]) by {
            assert(pms[i] == ms[i]);
        }
        assert forall|i: int| 0 <= i < psteps.len() implies step_server(
            pms[i],
            pms[i + 1],
            #[trigger] psteps[i],
        ) by {
            assert(pms[i] == ms[i] && pms[i + 1] == ms[i + 1] && psteps[i] == steps[i]);
        }
        assert forall|i: int| 0 <= i < psteps.len() implies step_client(
            plss[i],
            plss[i + 1],
            pms[i],
            #[trigger] psteps[i],
            seat,
        ) by {
            assert(plss[i] == lss[i] && plss[i + 1] == lss[i + 1] && pms[i] == ms[i] && psteps[i]
                == steps[i]);
        }
        assert(plss[0] == lss[0] && pms[0] == ms[0]);
        lemma_mirror_trace(pms, plss, psteps, seat);
        let m1 = ms[n - 1];
        let m2 = ms[n];
        let ls1 = lss[n - 1];
        let ls2 = lss[n];
        assert(pms[n - 1] == m1 && plss[n - 1] == ls1);
        assert(in_sync(ls1, m1, seat));
        assert(step_server(m1, m2, steps[n - 1]));
        assert(step_client(ls1, ls2, m1, steps[n - 1], seat));
        match steps[n - 1] {
            MatchStep::Draw { p, t } => {
                lemma_mirror_draw(m1, m2, ls1, ls2, seat, p, t);
            },
            MatchStep::DiscardCalls { p, tile } => {
                lemma_mirror_discard_calls(m1, m2, ls1, ls2, seat, p, tile);
            },
            MatchStep::DiscardNoCalls { p, tile } => {
                let mid = choose|mid: LocalState|
                    #[trigger] applied_discard(ls1, mid, p, tile) && pass_applied(mid, ls2);
                lemma_mirror_discard_nocalls(m1, m2, ls1, mid, seat, p, tile);
                lemma_mirror_pass_after(m2, mid, ls2, seat, p, tile);
            },
            MatchStep::Register => {
                lemma_mirror_register(m1, m2, ls1, seat);
            },
            MatchStep::DecidePass => {
                lemma_mirror_decide_pass(m1, m2, ls1, ls2, seat);
            },
            MatchStep::DecideCall { w0, c0 } => {
                lemma_mirror_decide_call(m1, m2, ls1, ls2, seat, w0, c0);
            },
            MatchStep::End { winner } => {
                if m1.turn_state is AwaitingCalls {
                    // A call phase never ends the match directly: the view
                    // keeps the hands, and the ended turn state projects.
                    assert(projects_during_calls(ls1, m1, seat));
                    assert(projects(ls2, m2, seat));
                } else {
                    lemma_mirror_match_end(m1, m2, ls1, ls2, seat, winner);
                }
            },
        }
    }
}


} // verus!

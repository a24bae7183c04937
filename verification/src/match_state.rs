//! The authoritative match state machine.

use crate::hand::{
    compare_calls_spec,
    call_valid, contains_id, count_value, hand_all, hand_budget_ok, id_index, ids_of,
    lemma_contains_own_id, lemma_id_index, possible_calls_ok, tiles_distinct, Call, CallInvalid,
    DiscardError, HandState,
};
use crate::tile::{
    by_id,
    instance_of_id, tile_of_id, tile_set_seq, valid_tile, index_of_value, wind_next, Tile, TileId,
    TileInstance, Wind,
};
use vstd::multiset::Multiset;
use vstd::prelude::*;

verus! {

/// Per-seat storage: one value for each of the four seat winds.
#[derive(Debug)]
pub struct PerSeat<T> {
    pub east: T,
    pub south: T,
    pub west: T,
    pub north: T,
}

impl<T> PerSeat<T> {
    /// The entry for a seat.
    pub open spec fn at(self, seat: Wind) -> T {
        match seat {
            Wind::East => self.east,
            Wind::South => self.south,
            Wind::West => self.west,
            Wind::North => self.north,
        }
    }

    pub fn get(&self, seat: Wind) -> (r: &T)
        ensures
            *r == self.at(seat),
    {
        match seat {
            Wind::East => &self.east,
            Wind::South => &self.south,
            Wind::West => &self.west,
            Wind::North => &self.north,
        }
    }
}

/// Unique identifier for an active match. Values are handed out by the
/// server; clients never mint their own.
#[derive(Debug, Clone, Copy, PartialEq, Eq, Hash, Structural)]
pub struct MatchId(pub u32);

impl MatchId {
    pub fn new(id: u32) -> (r: Self)
        ensures
            r == MatchId(id),
    {
        Self(id)
    }

    pub fn raw(self) -> (r: u32)
        ensures
            r == self.0,
    {
        self.0
    }
}

/// The wall could not serve a request for tiles.
#[derive(Debug, Clone, Copy, PartialEq, Eq, Hash, Structural)]
pub struct InsufficientTiles {
    pub remaining: usize,
    pub needed: usize,
}

impl InsufficientTiles {
    pub fn new(remaining: usize, needed: usize) -> (r: Self)
        ensures
            r == (InsufficientTiles { remaining, needed }),
    {
        Self { remaining, needed }
    }
}

/// Why a discard request was rejected.
#[derive(Debug, Clone, Copy, PartialEq, Eq, Hash, Structural)]
pub enum InvalidDiscard {
    /// The tile being discarded is not in the player's hand.
    TileNotInHand,
    /// Another player's turn is active.
    IncorrectTurn { expected: Wind, actual: Wind },
}

/// The shape of a turn state, for error reports.
#[derive(Debug, Clone, Copy, PartialEq, Eq, Hash, Structural)]
pub enum TurnStateKind {
    AwaitingDraw,
    AwaitingDiscard,
    AwaitingCalls,
    MatchEnded,
}

/// Why an atomic match operation was rejected. A rejected operation leaves
/// the match unchanged.
#[derive(Debug, Clone, Copy, PartialEq, Eq, Hash, Structural)]
pub enum MatchError {
    /// The operation does not apply in the current turn state.
    InvalidAction { expected: TurnStateKind, actual: TurnStateKind },
    /// The acting seat is not among the seats that may call the discard.
    NotWaiting,
    /// The submitted call is not among the caller's valid calls.
    CallNotAllowed,
    /// Some seat still has to call or pass.
    StillWaiting,
    /// A hand-level discard failure, forwarded.
    Discard(DiscardError),
    /// A hand-level call failure, forwarded.
    Call(CallInvalid),
}

/// The turn state machine.
#[derive(Debug)]
pub enum TurnState {
    /// The named seat must draw next.
    AwaitingDraw(Wind),
    /// The named seat holds its draw and must discard.
    AwaitingDiscard(Wind),
    /// A tile was discarded and some other seats can call it.
    AwaitingCalls {
        discarding_player: Wind,
        discard: TileId,
        /// Calls made so far by seats that chose to call.
        calls: PerSeat<Option<Call>>,
        /// Seats that still must call or pass, each with its valid calls.
        waiting: PerSeat<Option<Vec<Call>>>,
    },
    /// The match is over, with a winning seat if somebody won.
    MatchEnded { winner: Option<Wind> },
}

/// The authoritative state of one match: the wall, the four hands, and the
/// turn state. Mutated only through the atomic operations below; the sole
/// source of truth that every client view is projected from.
#[derive(Debug)]
pub struct MatchState {
    pub id: MatchId,
    /// One hand per seat wind.
    pub players: PerSeat<HandState>,
    /// The live wall; players draw from its tail.
    pub wall: Vec<TileInstance>,
    pub turn_state: TurnState,
}

// ---------------------------------------------------------------------------
// The accounting model: every tile instance of the match, in one sequence.
// ---------------------------------------------------------------------------

/// Every tile instance the match tracks: the wall, east to north.
pub open spec fn match_seq(m: MatchState) -> Seq<TileInstance> {
    m.wall@ + hand_all(m.players.east) + hand_all(m.players.south) + hand_all(m.players.west)
        + hand_all(m.players.north)
}

/// Tile conservation: the match holds the canonical tileset, each physical
/// tile exactly once, wherever the tiles currently sit.
pub open spec fn conserves_tiles(m: MatchState) -> bool {
    match_seq(m).to_multiset() == tile_set_seq().to_multiset()
}

/// What must hold of the turn state relative to the hands.
pub open spec fn turn_wf(m: MatchState) -> bool {
    match m.turn_state {
        TurnState::AwaitingDraw(_) => forall|q: Wind| #[trigger] m.players.at(q).current_draw
            is None,
        TurnState::AwaitingDiscard(p) => m.players.at(p).current_draw is Some && forall|q: Wind|
            q != p ==> #[trigger] m.players.at(q).current_draw is None,
        TurnState::AwaitingCalls { discarding_player, discard, calls, waiting } => {
            let dp = discarding_player;
            let v = tile_of_id(discard.0 as int);
            &&& forall|q: Wind| #[trigger] m.players.at(q).current_draw is None
            &&& m.players.at(dp).discards@.len() > 0
            &&& m.players.at(dp).discards@.last().id == discard
            &&& discard.0 < 136
            &&& calls.at(dp) is None
            &&& waiting.at(dp) is None
            &&& forall|q: Wind| !(#[trigger] calls.at(q) is Some && waiting.at(q) is Some)
            &&& forall|q: Wind| #[trigger] waiting.at(q) matches Some(l) ==> possible_calls_ok(
                l@,
                m.players.at(q).tiles@,
                v,
                wind_next(dp) == q,
            ) && l@.len() > 0
            // Registered calls come from offered option lists, and the
            // matcher never offers a ron (winning-hand recognition is out
            // of scope), so none is registered here. Admitting one would
            // let a resolved call phase push the claimed tile into a
            // concealed hand and break the thirteen-tile budget for good.
            &&& forall|q: Wind| #[trigger] calls.at(q) matches Some(c) ==> call_valid(
                m.players.at(q).tiles@,
                v,
                c,
            ) && !(c is Ron) && (c is Chii ==> q == wind_next(dp)) && (c matches Call::Pon(a, b)
                ==> crate::hand::tile_of_in(m.players.at(q).tiles@, a) == v
                && crate::hand::tile_of_in(m.players.at(q).tiles@, b) == v) && (exists|
                l: Seq<Call>,
            |
                #![trigger l.len()]
                possible_calls_ok(l, m.players.at(q).tiles@, v, wind_next(dp) == q) && l.contains(
                    c,
                ))
            &&& forall|q1: Wind, q2: Wind|
                q1 != q2 ==> !(#[trigger] seat_offers_kind(calls, waiting, q1, CallKind::Pon)
                    && #[trigger] seat_offers_kind(calls, waiting, q2, CallKind::Pon))
            &&& forall|q1: Wind, q2: Wind|
                q1 != q2 ==> !(seat_offers_kind(calls, waiting, q1, CallKind::Kan)
                    && seat_offers_kind(calls, waiting, q2, CallKind::Kan))
            &&& forall|q: Wind|
                seat_offers_kind(calls, waiting, q, CallKind::Chii) ==> q == wind_next(dp)
        },
        TurnState::MatchEnded { .. } => true,
    }
}

/// The kind of a call, without its payload.
#[derive(Debug, Clone, Copy, PartialEq, Eq, Structural)]
pub enum CallKind {
    Chii,
    Pon,
    Kan,
    Ron,
}

pub open spec fn kind_of(c: Call) -> CallKind {
    match c {
        Call::Chii(..) => CallKind::Chii,
        Call::Pon(..) => CallKind::Pon,
        Call::Kan(..) => CallKind::Kan,
        Call::Ron => CallKind::Ron,
    }
}

/// The seat has made, or could still make, a call of this kind.
pub open spec fn seat_offers_kind(
    calls: PerSeat<Option<Call>>,
    waiting: PerSeat<Option<Vec<Call>>>,
    q: Wind,
    k: CallKind,
) -> bool {
    ||| (calls.at(q) matches Some(c) && kind_of(c) == k)
    ||| (waiting.at(q) matches Some(l) && exists|i: int|
        0 <= i < l@.len() && kind_of(#[trigger] l@[i]) == k)
}

/// Well-formedness of a match state: conservation, the hand budgets, and
/// the turn-state conditions.
pub open spec fn match_wf(m: MatchState) -> bool {
    &&& conserves_tiles(m)
    &&& forall|q: Wind| hand_budget_ok(#[trigger] m.players.at(q))
    &&& turn_wf(m)
}

// ---------------------------------------------------------------------------
// Facts that conservation gives about every component of the match.
// ---------------------------------------------------------------------------

/// An instance that looks exactly like its id says it should.
pub open spec fn instance_ok(t: TileInstance) -> bool {
    t.id.0 < 136 && t == instance_of_id(t.id.0 as int)
}

/// The canonical tileset holds every instance at most once.
pub proof fn lemma_canonical_counts()
    ensures
        forall|x: TileInstance| #[trigger] tile_set_seq().to_multiset().count(x) <= 1,
        forall|x: TileInstance| tile_set_seq().to_multiset().count(x) > 0 ==> instance_ok(x),
{
    let c = tile_set_seq();
    assert(c.no_duplicates()) by {
        assert forall|k1: int, k2: int| 0 <= k1 < k2 < c.len() implies c[k1] != c[k2] by {
            assert(c[k1].id.0 == k1 && c[k2].id.0 == k2);
        }
    }
    c.lemma_multiset_has_no_duplicates();
    broadcast use vstd::seq_lib::group_to_multiset_ensures;

    assert forall|x: TileInstance| #[trigger] c.to_multiset().count(x) <= 1 by {
        if c.to_multiset().count(x) > 1 {
            assert(c.contains(x));
        }
    }
    assert forall|x: TileInstance| c.to_multiset().count(x) > 0 implies instance_ok(x) by {
        assert(c.contains(x));
        let k = choose|k: int| 0 <= k < c.len() && c[k] == x;
        assert(x == instance_of_id(k));
    }
}

/// A sequence whose multiset sits below a duplicate-free bound has distinct
/// well-formed instances: no id appears twice and every instance matches
/// its id.
pub proof fn lemma_part_facts(part: Seq<TileInstance>, whole: Multiset<TileInstance>)
    requires
        forall|x: TileInstance| #[trigger] part.to_multiset().count(x) <= whole.count(x),
        forall|x: TileInstance| #[trigger] whole.count(x) <= 1,
        forall|x: TileInstance| whole.count(x) > 0 ==> instance_ok(x),
    ensures
        tiles_distinct(part),
        forall|k: int| 0 <= k < part.len() ==> instance_ok(#[trigger] part[k]),
{
    broadcast use vstd::seq_lib::group_to_multiset_ensures;

    assert forall|k: int| 0 <= k < part.len() implies instance_ok(#[trigger] part[k]) by {
        assert(part.contains(part[k]));
        assert(part.to_multiset().count(part[k]) > 0);
    }
    assert forall|k1: int, k2: int| 0 <= k1 < k2 < part.len() implies ids_of(part)[k1] != ids_of(
        part,
    )[k2] by {
        assert(ids_of(part)[k1] == part[k1].id);
        assert(ids_of(part)[k2] == part[k2].id);
        if part[k1].id == part[k2].id {
            assert(instance_ok(part[k1]) && instance_ok(part[k2]));
            assert(part[k1] == part[k2]);
            // The same instance at two positions counts at least twice.
            let x = part[k1];
            let shorter = part.remove(k1);
            assert(shorter.to_multiset() == part.to_multiset().remove(x));
            assert(shorter[k2 - 1] == x);
            assert(shorter.contains(x));
            assert(shorter.to_multiset().count(x) > 0);
            assert(part.to_multiset().count(x) >= 2);
        }
    }
    assert(ids_of(part).no_duplicates());
}

/// Counting matches of a value, when every matching instance's id lies in
/// `allowed` and no id repeats, is bounded by the size of `allowed`.
pub proof fn lemma_count_bound(s: Seq<TileInstance>, v: Tile, allowed: Set<TileId>)
    requires
        allowed.finite(),
        tiles_distinct(s),
        forall|k: int| 0 <= k < s.len() && (#[trigger] s[k]).tile == v ==> allowed.contains(
            s[k].id,
        ),
    ensures
        count_value(s, v) <= allowed.len(),
    decreases s.len(),
{
    if s.len() > 0 {
        let rest = s.drop_last();
        assert forall|k1: int, k2: int| 0 <= k1 < k2 < rest.len() implies ids_of(rest)[k1]
            != ids_of(rest)[k2] by {
            assert(ids_of(rest)[k1] == rest[k1].id);
            assert(rest[k1] == s[k1]);
            assert(ids_of(s)[k1] == s[k1].id);
            assert(ids_of(rest)[k2] == rest[k2].id);
            assert(rest[k2] == s[k2]);
            assert(ids_of(s)[k2] == s[k2].id);
        }
        assert(tiles_distinct(rest));
        let last = s.last();
        if last.tile == v {
            let smaller = allowed.remove(last.id);
            assert forall|k: int|
                0 <= k < rest.len() && (#[trigger] rest[k]).tile == v implies smaller.contains(
                rest[k].id,
            ) by {
                assert(rest[k] == s[k]);
                assert(ids_of(s)[k] == s[k].id);
                assert(ids_of(s)[s.len() - 1] == last.id);
                assert(s[k].id != last.id);
            }
            lemma_count_bound(rest, v, smaller);
            assert(allowed.contains(last.id));
            assert(smaller.len() == allowed.len() - 1);
        } else {
            assert forall|k: int|
                0 <= k < rest.len() && (#[trigger] rest[k]).tile == v implies allowed.contains(
                rest[k].id,
            ) by {
                assert(rest[k] == s[k]);
            }
            lemma_count_bound(rest, v, allowed);
        }
    }
}

/// The set of ids that carry a given tile value.
pub open spec fn value_ids(v: Tile) -> Set<TileId> {
    Set::new(|id: TileId| id.0 < 136 && tile_of_id(id.0 as int) == v)
}

/// For a canonical tile value there are exactly four such ids.
pub proof fn lemma_value_ids(v: Tile)
    requires
        valid_tile(v),
    ensures
        value_ids(v).finite(),
        value_ids(v).len() == 4,
{
    let base = index_of_value(v) * 4;
    crate::tile::lemma_value_index_roundtrip(v);
    let concrete = Set::<TileId>::empty().insert(TileId(base as u8)).insert(
        TileId((base + 1) as u8),
    ).insert(TileId((base + 2) as u8)).insert(TileId((base + 3) as u8));
    assert(value_ids(v) =~= concrete) by {
        assert forall|id: TileId| value_ids(v).contains(id) implies concrete.contains(id) by {
            assert(id.0 < 136 && tile_of_id(id.0 as int) == v);
            assert(index_of_value(tile_of_id(id.0 as int)) == id.0 as int / 4) by {
                crate::tile::lemma_id_value_valid(id.0 as int);
            }
            assert(id.0 as int / 4 == index_of_value(v));
            assert(base <= id.0 < base + 4);
        }
        assert forall|id: TileId| concrete.contains(id) implies value_ids(v).contains(id) by {
            assert(base + 3 < 136);
            assert(id.0 as int / 4 == index_of_value(v));
        }
    }
    assert(concrete.len() == 4);
}

/// Every component of a well-formed match has pairwise distinct ids and
/// instances matching their ids; in particular every hand's concealed
/// tiles do.
pub proof fn lemma_wf_parts(m: MatchState)
    requires
        conserves_tiles(m),
    ensures
        forall|x: TileInstance| #[trigger] match_seq(m).to_multiset().count(x) <= 1,
        forall|x: TileInstance| match_seq(m).to_multiset().count(x) > 0 ==> instance_ok(x),
        tiles_distinct(match_seq(m)),
        forall|k: int| 0 <= k < match_seq(m).len() ==> instance_ok(#[trigger] match_seq(m)[k]),
{
    lemma_canonical_counts();
    lemma_part_facts(match_seq(m), tile_set_seq().to_multiset());
}


// ---------------------------------------------------------------------------
// Multiset decomposition of the accounting sequence.
// ---------------------------------------------------------------------------

pub open spec fn opt_ms(o: Option<TileInstance>) -> Multiset<TileInstance> {
    crate::hand::opt_seq(o).to_multiset()
}

/// A hand's instances as a multiset, component by component.
pub open spec fn hand_ms(h: HandState) -> Multiset<TileInstance> {
    h.tiles@.to_multiset().add(opt_ms(h.current_draw)).add(
        crate::hand::melds3_seq(h.open_chows@).to_multiset(),
    ).add(crate::hand::melds3_seq(h.open_pongs@).to_multiset()).add(
        crate::hand::melds4_seq(h.open_kongs@).to_multiset(),
    ).add(crate::hand::melds4_seq(h.closed_kongs@).to_multiset()).add(h.discards@.to_multiset())
}

pub proof fn lemma_hand_ms(h: HandState)
    ensures
        hand_all(h).to_multiset() == hand_ms(h),
{
    broadcast use vstd::seq_lib::lemma_multiset_commutative;

    assert(hand_all(h).to_multiset() =~= hand_ms(h));
}

pub proof fn lemma_match_ms(m: MatchState)
    ensures
        match_seq(m).to_multiset() == m.wall@.to_multiset().add(hand_ms(m.players.east)).add(
            hand_ms(m.players.south),
        ).add(hand_ms(m.players.west)).add(hand_ms(m.players.north)),
{
    broadcast use vstd::seq_lib::lemma_multiset_commutative;

    lemma_hand_ms(m.players.east);
    lemma_hand_ms(m.players.south);
    lemma_hand_ms(m.players.west);
    lemma_hand_ms(m.players.north);
    assert(match_seq(m).to_multiset() =~= m.wall@.to_multiset().add(
        hand_ms(m.players.east),
    ).add(hand_ms(m.players.south)).add(hand_ms(m.players.west)).add(hand_ms(m.players.north)));
}

// ---------------------------------------------------------------------------
// The atomic operations.
// ---------------------------------------------------------------------------

/// The shape of a turn state.
pub open spec fn turn_kind(t: TurnState) -> TurnStateKind {
    match t {
        TurnState::AwaitingDraw(..) => TurnStateKind::AwaitingDraw,
        TurnState::AwaitingDiscard(..) => TurnStateKind::AwaitingDiscard,
        TurnState::AwaitingCalls { .. } => TurnStateKind::AwaitingCalls,
        TurnState::MatchEnded { .. } => TurnStateKind::MatchEnded,
    }
}

/// `h2` is `h1` having gained `t` as its current draw.
pub open spec fn hand_drawn(h1: HandState, h2: HandState, t: TileInstance) -> bool {
    &&& h2.tiles == h1.tiles
    &&& h2.current_draw == Some(t)
    &&& h2.discards == h1.discards
    &&& crate::hand::unchanged_melds(h1, h2)
}

impl MatchState {
    /// Creates a match over the given (typically shuffled) tiles: each seat
    /// is dealt thirteen tiles from the tail of `tiles`, East first, the
    /// rest becomes the wall, and East is to draw.
    ///
    /// When `tiles` is a permutation of the canonical tileset — the one
    /// intended use — the resulting state is well-formed, and every later
    /// atomic operation keeps it so.
    pub fn new(id: MatchId, tiles: Vec<TileInstance>) -> (r: MatchState)
        requires
            tiles@.len() >= 52,
        ensures
            r.id == id,
            r.turn_state == TurnState::AwaitingDraw(Wind::East),
            r.players.east.tiles@ == tiles@.subrange(tiles@.len() - 13, tiles@.len() as int),
            r.players.south.tiles@ == tiles@.subrange(tiles@.len() - 26, tiles@.len() - 13),
            r.players.west.tiles@ == tiles@.subrange(tiles@.len() - 39, tiles@.len() - 26),
            r.players.north.tiles@ == tiles@.subrange(tiles@.len() - 52, tiles@.len() - 39),
            r.wall@ == tiles@.subrange(0, tiles@.len() - 52),
            fresh_hand(r.players.east),
            fresh_hand(r.players.south),
            fresh_hand(r.players.west),
            fresh_hand(r.players.north),
            tiles@.to_multiset() == tile_set_seq().to_multiset() ==> match_wf(r),
    {
        let ghost all = tiles@;
        let mut rest = tiles;
        let east = HandState::new(&mut rest);
        let south = HandState::new(&mut rest);
        let west = HandState::new(&mut rest);
        let north = HandState::new(&mut rest);
        let r = MatchState {
            id,
            players: PerSeat { east, south, west, north },
            wall: rest,
            turn_state: TurnState::AwaitingDraw(Wind::East),
        };
        proof {
            assert(r.players.east.tiles@ =~= all.subrange(all.len() - 13, all.len() as int));
            assert(r.players.south.tiles@ =~= all.subrange(all.len() - 26, all.len() - 13));
            assert(r.players.west.tiles@ =~= all.subrange(all.len() - 39, all.len() - 26));
            assert(r.players.north.tiles@ =~= all.subrange(all.len() - 52, all.len() - 39));
            if all.to_multiset() == tile_set_seq().to_multiset() {
                broadcast use vstd::seq_lib::lemma_multiset_commutative;

                assert(hand_all(r.players.east) =~= r.players.east.tiles@);
                assert(hand_all(r.players.south) =~= r.players.south.tiles@);
                assert(hand_all(r.players.west) =~= r.players.west.tiles@);
                assert(hand_all(r.players.north) =~= r.players.north.tiles@);
                assert(all =~= r.wall@ + r.players.north.tiles@ + r.players.west.tiles@
                    + r.players.south.tiles@ + r.players.east.tiles@);
                assert(match_seq(r).to_multiset() =~= all.to_multiset());
                assert forall|q: Wind| hand_budget_ok(#[trigger] r.players.at(q)) by {
                    assert(r.players.at(q).tiles@.len() == 13);
                }
                assert forall|q: Wind| #[trigger] r.players.at(q).current_draw is None by {}
            }
        }
        r
    }

    /// Read access to a seat's hand.
    pub fn player(&self, seat: Wind) -> (r: &HandState)
        ensures
            *r == self.players.at(seat),
    {
        self.players.get(seat)
    }

    pub fn id(&self) -> (r: MatchId)
        ensures
            r == self.id,
    {
        self.id
    }

    /// Copy of a seat's concealed tiles.
    pub fn player_hand(&self, seat: Wind) -> (r: Vec<TileInstance>)
        ensures
            r@ == self.players.at(seat).tiles@,
    {
        crate::hand::copy_tiles(&self.players.get(seat).tiles)
    }

    pub fn player_has_current_draw(&self, seat: Wind) -> (r: bool)
        ensures
            r == (self.players.at(seat).current_draw is Some),
    {
        self.players.get(seat).has_current_draw()
    }

    /// The seat's current draw; the seat must hold one.
    pub fn current_draw(&self, seat: Wind) -> (r: TileInstance)
        requires
            self.players.at(seat).current_draw is Some,
        ensures
            Some(r) == self.players.at(seat).current_draw,
    {
        self.players.get(seat).get_current_draw()
    }

    /// Draws the next tile from the wall into the seat's draw slot.
    ///
    /// An empty wall is no error: it is the normal end of the match, and
    /// the state moves to `MatchEnded` with no winner.
    pub fn draw_for_player(&mut self, seat: Wind) -> (r: Result<Option<TileId>, MatchError>)
        requires
            match_wf(*old(self)),
        ensures
            match_wf(*final(self)),
            !(old(self).turn_state matches TurnState::AwaitingDraw(p) && p == seat) ==> r == Err::<
                Option<TileId>,
                MatchError,
            >(
                MatchError::InvalidAction {
                    expected: TurnStateKind::AwaitingDraw,
                    actual: turn_kind(old(self).turn_state),
                },
            ) && *final(self) == *old(self),
            (old(self).turn_state matches TurnState::AwaitingDraw(p) && p == seat) ==> {
                if old(self).wall@.len() == 0 {
                    &&& r == Ok::<Option<TileId>, MatchError>(None)
                    &&& final(self).turn_state == (TurnState::MatchEnded { winner: None::<Wind> })
                    &&& final(self).players == old(self).players
                    &&& final(self).wall@ == old(self).wall@
                    &&& final(self).id == old(self).id
                } else {
                    &&& r == Ok::<Option<TileId>, MatchError>(Some(old(self).wall@.last().id))
                    &&& final(self).turn_state == TurnState::AwaitingDiscard(seat)
                    &&& final(self).wall@ == old(self).wall@.drop_last()
                    &&& hand_drawn(
                        old(self).players.at(seat),
                        final(self).players.at(seat),
                        old(self).wall@.last(),
                    )
                    &&& forall|q: Wind| q != seat ==> final(self).players.at(q) == old(
                        self,
                    ).players.at(q)
                    &&& final(self).id == old(self).id
                }
            },
    {
        let ok = match &self.turn_state {
            TurnState::AwaitingDraw(p) => *p == seat,
            _ => false,
        };
        if !ok {
            let actual = self.turn_kind_exec();
            return Err(
                MatchError::InvalidAction { expected: TurnStateKind::AwaitingDraw, actual },
            );
        }
        let ghost before = *self;
        match self.wall.pop() {
            None => {
                self.turn_state = TurnState::MatchEnded { winner: None };
                proof {
                    assert(match_seq(*self) =~= match_seq(before));
                }
                Ok(None)
            },
            Some(tile) => {
                self.hand_draw_at(seat, tile);
                self.turn_state = TurnState::AwaitingDiscard(seat);
                proof {
                    lemma_draw_conserves(before, *self, seat, tile);
                    assert forall|q: Wind| hand_budget_ok(#[trigger] self.players.at(q)) by {
                        if q != seat {
                            assert(self.players.at(q) == before.players.at(q));
                        } else {
                            assert(self.players.at(q).tiles@ == before.players.at(q).tiles@);
                        }
                    }
                }
                Ok(Some(tile.id))
            },
        }
    }

    /// Puts `tile` into the seat's draw slot; the seat must be without a
    /// draw.
    fn hand_draw_at(&mut self, seat: Wind, tile: TileInstance)
        requires
            old(self).players.at(seat).current_draw is None,
        ensures
            hand_drawn(old(self).players.at(seat), final(self).players.at(seat), tile),
            forall|q: Wind| q != seat ==> final(self).players.at(q) == old(self).players.at(q),
            final(self).wall == old(self).wall,
            final(self).turn_state == old(self).turn_state,
            final(self).id == old(self).id,
    {
        let dr = match seat {
            Wind::East => self.players.east.draw_tile(tile),
            Wind::South => self.players.south.draw_tile(tile),
            Wind::West => self.players.west.draw_tile(tile),
            Wind::North => self.players.north.draw_tile(tile),
        };
        match dr {
            Ok(()) => {},
            Err(_) => {
                proof {
                    assert(false);
                }
            },
        }
    }

    /// The shape of the current turn state.
    fn turn_kind_exec(&self) -> (r: TurnStateKind)
        ensures
            r == turn_kind(self.turn_state),
    {
        match &self.turn_state {
            TurnState::AwaitingDraw(..) => TurnStateKind::AwaitingDraw,
            TurnState::AwaitingDiscard(..) => TurnStateKind::AwaitingDiscard,
            TurnState::AwaitingCalls { .. } => TurnStateKind::AwaitingCalls,
            TurnState::MatchEnded { .. } => TurnStateKind::MatchEnded,
        }
    }

    /// Like [`MatchState::draw_for_player`], reporting only success.
    pub fn try_draw_tile(&mut self, seat: Wind) -> (r: bool)
        requires
            match_wf(*old(self)),
        ensures
            match_wf(*final(self)),
            r == (old(self).turn_state matches TurnState::AwaitingDraw(p) && p == seat),
    {
        self.draw_for_player(seat).is_ok()
    }

    /// Like [`MatchState::discard_tile`], reporting only success.
    pub fn try_discard_tile(&mut self, seat: Wind, tile: TileId) -> (r: bool)
        requires
            match_wf(*old(self)),
        ensures
            match_wf(*final(self)),
            r == (old(self).turn_state matches TurnState::AwaitingDiscard(p) && p == seat && (
            contains_id(old(self).players.at(seat).tiles@, tile) || discarded_draw(
                old(self).players.at(seat),
            ).id == tile)),
    {
        self.discard_tile(seat, tile).is_ok()
    }

    /// Builds the request that submits a discard to the server; the
    /// boundary turns it into a wire message.
    pub fn request_discard_tile(&self, player: Wind, tile: TileId) -> (r:
        crate::messages::ClientRequest)
        ensures
            r matches crate::messages::ClientRequest::DiscardTile(q) && q.id == self.id
                && q.player == player && q.tile == tile,
    {
        crate::messages::ClientRequest::DiscardTile(
            crate::messages::DiscardTileRequest { id: self.id, player, tile },
        )
    }
}

/// A hand fresh from the deal: no draw, no melds, no discards.
pub open spec fn fresh_hand(h: HandState) -> bool {
    &&& h.current_draw is None
    &&& h.open_chows@.len() == 0
    &&& h.open_pongs@.len() == 0
    &&& h.open_kongs@.len() == 0
    &&& h.closed_kongs@.len() == 0
    &&& h.discards@.len() == 0
}

/// Drawing moves one instance from the wall into a hand and conserves the
/// tiles.
#[verifier::rlimit(100)]
proof fn lemma_draw_conserves(m1: MatchState, m2: MatchState, seat: Wind, t: TileInstance)
    requires
        m1.wall@.len() > 0,
        t == m1.wall@.last(),
        m2.wall@ == m1.wall@.drop_last(),
        hand_drawn(m1.players.at(seat), m2.players.at(seat), t),
        m1.players.at(seat).current_draw is None,
        forall|q: Wind| q != seat ==> m2.players.at(q) == m1.players.at(q),
        conserves_tiles(m1),
    ensures
        conserves_tiles(m2),
{
    broadcast use vstd::seq_lib::group_to_multiset_ensures;
    broadcast use vstd::multiset::group_multiset_axioms;

    lemma_match_ms(m1);
    lemma_match_ms(m2);
    let h1 = m1.players.at(seat);
    let h2 = m2.players.at(seat);
    assert(m1.wall@ =~= m2.wall@.push(t));
    assert(m1.wall@.to_multiset() == m2.wall@.to_multiset().insert(t));
    assert(opt_ms(h2.current_draw) =~= opt_ms(h1.current_draw).insert(t)) by {
        assert(crate::hand::opt_seq(h2.current_draw) =~= Seq::empty().push(t));
        assert(crate::hand::opt_seq(h1.current_draw) =~= Seq::<TileInstance>::empty());
    }
    assert(hand_ms(h2) =~= hand_ms(h1).insert(t));
    assert(m2.players.at(Wind::East) == m2.players.east);
    assert(m2.players.at(Wind::South) == m2.players.south);
    assert(m2.players.at(Wind::West) == m2.players.west);
    assert(m2.players.at(Wind::North) == m2.players.north);
    match seat {
        Wind::East => {
            assert(hand_ms(m2.players.east) == hand_ms(m1.players.east).insert(t));
            assert(m2.players.at(Wind::South) == m1.players.at(Wind::South));
            assert(m2.players.at(Wind::West) == m1.players.at(Wind::West));
            assert(m2.players.at(Wind::North) == m1.players.at(Wind::North));
        },
        Wind::South => {
            assert(hand_ms(m2.players.south) == hand_ms(m1.players.south).insert(t));
            assert(m2.players.at(Wind::East) == m1.players.at(Wind::East));
            assert(m2.players.at(Wind::West) == m1.players.at(Wind::West));
            assert(m2.players.at(Wind::North) == m1.players.at(Wind::North));
        },
        Wind::West => {
            assert(hand_ms(m2.players.west) == hand_ms(m1.players.west).insert(t));
            assert(m2.players.at(Wind::East) == m1.players.at(Wind::East));
            assert(m2.players.at(Wind::South) == m1.players.at(Wind::South));
            assert(m2.players.at(Wind::North) == m1.players.at(Wind::North));
        },
        Wind::North => {
            assert(hand_ms(m2.players.north) == hand_ms(m1.players.north).insert(t));
            assert(m2.players.at(Wind::East) == m1.players.at(Wind::East));
            assert(m2.players.at(Wind::South) == m1.players.at(Wind::South));
            assert(m2.players.at(Wind::West) == m1.players.at(Wind::West));
        },
    }
    assert forall|x: TileInstance| true implies match_seq(m2).to_multiset().count(x) == match_seq(
        m1,
    ).to_multiset().count(x) by {
        assert(m1.wall@.to_multiset().count(x) == m2.wall@.to_multiset().count(x) + if x == t {
            1int
        } else {
            0int
        });
    }
    assert(match_seq(m2).to_multiset() =~= match_seq(m1).to_multiset());
}



// ---------------------------------------------------------------------------
// Counting bounds used when a discard opens the call phase.
// ---------------------------------------------------------------------------

/// The per-seat count decomposition of the match's tiles.
proof fn lemma_seat_counts(m: MatchState)
    ensures
        forall|x: TileInstance| #[trigger] match_seq(m).to_multiset().count(x) == m.wall@
            .to_multiset().count(x) + hand_ms(m.players.at(Wind::East)).count(x) + hand_ms(
            m.players.at(Wind::South),
        ).count(x) + hand_ms(m.players.at(Wind::West)).count(x) + hand_ms(
            m.players.at(Wind::North),
        ).count(x),
{
    broadcast use vstd::multiset::group_multiset_axioms;

    lemma_match_ms(m);
}

/// Every component multiset of a hand counts below the hand's total.
proof fn lemma_hand_component_counts(h: HandState)
    ensures
        forall|x: TileInstance| hand_ms(h).count(x) >= h.tiles@.to_multiset().count(x),
        forall|x: TileInstance| hand_ms(h).count(x) >= h.discards@.to_multiset().count(x),
        forall|x: TileInstance| hand_ms(h).count(x) >= 0,
{
    broadcast use vstd::multiset::group_multiset_axioms;
}

/// Bounds on how many copies of a just-discarded tile value other seats can
/// hold: with one copy in the discard pile, any two other seats hold at
/// most three copies between them, so at most one seat can pon and at most
/// one can kan.
pub proof fn lemma_call_count_bounds(m: MatchState, dp: Wind, q1: Wind, q2: Wind)
    requires
        conserves_tiles(m),
        m.players.at(dp).discards@.len() > 0,
        dp != q1,
        dp != q2,
        q1 != q2,
    ensures
        count_value(m.players.at(q1).tiles@, m.players.at(dp).discards@.last().tile)
            + count_value(m.players.at(q2).tiles@, m.players.at(dp).discards@.last().tile) <= 3,
        count_value(m.players.at(q1).tiles@, m.players.at(dp).discards@.last().tile) <= 3,
        tiles_distinct(m.players.at(q1).tiles@),
        valid_tile(m.players.at(dp).discards@.last().tile),
        instance_ok(m.players.at(dp).discards@.last()),
{
    broadcast use vstd::multiset::group_multiset_axioms;
    broadcast use vstd::seq_lib::group_to_multiset_ensures;
    broadcast use vstd::seq_lib::lemma_multiset_commutative;

    let d = m.players.at(dp).discards@.last();
    let v = d.tile;
    let t1 = m.players.at(q1).tiles@;
    let t2 = m.players.at(q2).tiles@;
    let part = t1 + t2;
    let canon = tile_set_seq().to_multiset();
    lemma_canonical_counts();
    lemma_seat_counts(m);
    lemma_hand_component_counts(m.players.at(Wind::East));
    lemma_hand_component_counts(m.players.at(Wind::South));
    lemma_hand_component_counts(m.players.at(Wind::West));
    lemma_hand_component_counts(m.players.at(Wind::North));
    assert(m.players.at(dp).discards@.contains(d));
    assert(m.players.at(dp).discards@.to_multiset().count(d) > 0);
    assert forall|x: TileInstance| #[trigger] part.to_multiset().count(x) + (if x == d {
        1int
    } else {
        0int
    }) <= canon.count(x) by {
        assert(part.to_multiset().count(x) == t1.to_multiset().count(x) + t2.to_multiset().count(
            x,
        ));
        assert(t1.to_multiset().count(x) <= hand_ms(m.players.at(q1)).count(x));
        assert(t2.to_multiset().count(x) <= hand_ms(m.players.at(q2)).count(x));
        if x == d {
            assert(m.players.at(dp).discards@.to_multiset().count(x) >= 1);
            assert(hand_ms(m.players.at(dp)).count(x) >= 1);
        }
        assert(match_seq(m).to_multiset().count(x) == canon.count(x));
    }
    assert forall|x: TileInstance| #[trigger] part.to_multiset().count(x) <= canon.count(x) by {}
    lemma_part_facts(part, canon);
    // The two hands separately inherit the distinctness facts.
    assert forall|k1: int, k2: int| 0 <= k1 < k2 < t1.len() implies ids_of(t1)[k1] != ids_of(
        t1,
    )[k2] by {
        assert(part[k1] == t1[k1] && part[k2] == t1[k2]);
        assert(ids_of(part)[k1] == part[k1].id && ids_of(part)[k2] == part[k2].id);
        assert(ids_of(t1)[k1] == t1[k1].id && ids_of(t1)[k2] == t1[k2].id);
    }
    assert(tiles_distinct(t1));
    // The discarded instance is canonical, so its value is a real tile
    // value with exactly four ids.
    assert(canon.count(d) >= 1) by {
        assert(match_seq(m).to_multiset().count(d) >= 1) by {
            assert(hand_ms(m.players.at(dp)).count(d) >= 1);
        }
    }
    assert(instance_ok(d));
    crate::tile::lemma_id_value_valid(d.id.0 as int);
    lemma_value_ids(v);
    let allowed = value_ids(v).remove(d.id);
    assert(value_ids(v).contains(d.id));
    assert(allowed.len() == 3);
    assert forall|k: int| 0 <= k < part.len() && (#[trigger] part[k]).tile == v implies
        allowed.contains(part[k].id) by {
        assert(instance_ok(part[k]));
        assert(value_ids(v).contains(part[k].id));
        if part[k].id == d.id {
            assert(part[k] == d);
            assert(part.contains(part[k]));
            assert(part.to_multiset().count(d) >= 1);
            assert(false);
        }
    }
    lemma_count_bound(part, v, allowed);
    crate::hand::lemma_count_concat(t1, t2, v);
    crate::hand::lemma_count_nonneg(t2, v);
}

// ---------------------------------------------------------------------------
// Discarding.
// ---------------------------------------------------------------------------

/// `h2` is `h1` after successfully discarding the tile with `id`, where
/// `draw` was `h1`'s current draw.
pub open spec fn hand_discarded(
    h1: HandState,
    h2: HandState,
    id: TileId,
    draw: TileInstance,
) -> bool {
    &&& h1.current_draw == Some(draw)
    &&& h2.current_draw is None
    &&& crate::hand::unchanged_melds(h1, h2)
    &&& if contains_id(h1.tiles@, id) {
        h2.tiles@ == crate::hand::remove_id(h1.tiles@, id).push(draw) && h2.discards@ == h1
            .discards@.push(h1.tiles@[id_index(h1.tiles@, id)])
    } else {
        draw.id == id && h2.tiles@ == h1.tiles@ && h2.discards@ == h1.discards@.push(draw)
    }
}

/// The instance that a successful discard moved into the discard pile.
pub open spec fn discarded_instance(h: HandState, id: TileId, draw: TileInstance) -> TileInstance {
    if contains_id(h.tiles@, id) {
        h.tiles@[id_index(h.tiles@, id)]
    } else {
        draw
    }
}

/// Discarding rearranges a hand internally and conserves the match tiles.
#[verifier::rlimit(100)]
proof fn lemma_discard_conserves(
    m1: MatchState,
    m2: MatchState,
    seat: Wind,
    id: TileId,
    draw: TileInstance,
)
    requires
        hand_discarded(m1.players.at(seat), m2.players.at(seat), id, draw),
        forall|q: Wind| q != seat ==> m2.players.at(q) == m1.players.at(q),
        m2.wall@ == m1.wall@,
        conserves_tiles(m1),
    ensures
        conserves_tiles(m2),
{
    broadcast use vstd::seq_lib::group_to_multiset_ensures;
    broadcast use vstd::multiset::group_multiset_axioms;

    lemma_match_ms(m1);
    lemma_match_ms(m2);
    let h1 = m1.players.at(seat);
    let h2 = m2.players.at(seat);
    let moved = discarded_instance(h1, id, draw);
    assert(hand_ms(h2) =~= hand_ms(h1)) by {
        assert(crate::hand::opt_seq(h1.current_draw) =~= Seq::empty().push(draw));
        assert(crate::hand::opt_seq(h2.current_draw) =~= Seq::<TileInstance>::empty());
        if contains_id(h1.tiles@, id) {
            let ix = id_index(h1.tiles@, id);
            lemma_id_index(h1.tiles@, id);
            assert(crate::hand::remove_id(h1.tiles@, id) =~= h1.tiles@.remove(ix));
            assert(h1.tiles@.remove(ix).to_multiset() == h1.tiles@.to_multiset().remove(
                h1.tiles@[ix],
            ));
            assert(h1.tiles@.to_multiset().count(moved) >= 1) by {
                assert(h1.tiles@.contains(h1.tiles@[ix]));
            }
            assert forall|x: TileInstance| true implies hand_ms(h2).count(x) == hand_ms(
                h1,
            ).count(x) by {}
        } else {
            assert forall|x: TileInstance| true implies hand_ms(h2).count(x) == hand_ms(
                h1,
            ).count(x) by {}
        }
    }
    assert(m2.players.at(Wind::East) == m2.players.east);
    assert(m2.players.at(Wind::South) == m2.players.south);
    assert(m2.players.at(Wind::West) == m2.players.west);
    assert(m2.players.at(Wind::North) == m2.players.north);
    match seat {
        Wind::East => {
            assert(hand_ms(m2.players.east) == hand_ms(m1.players.east));
            assert(m2.players.at(Wind::South) == m1.players.at(Wind::South));
            assert(m2.players.at(Wind::West) == m1.players.at(Wind::West));
            assert(m2.players.at(Wind::North) == m1.players.at(Wind::North));
        },
        Wind::South => {
            assert(hand_ms(m2.players.south) == hand_ms(m1.players.south));
            assert(m2.players.at(Wind::East) == m1.players.at(Wind::East));
            assert(m2.players.at(Wind::West) == m1.players.at(Wind::West));
            assert(m2.players.at(Wind::North) == m1.players.at(Wind::North));
        },
        Wind::West => {
            assert(hand_ms(m2.players.west) == hand_ms(m1.players.west));
            assert(m2.players.at(Wind::East) == m1.players.at(Wind::East));
            assert(m2.players.at(Wind::South) == m1.players.at(Wind::South));
            assert(m2.players.at(Wind::North) == m1.players.at(Wind::North));
        },
        Wind::North => {
            assert(hand_ms(m2.players.north) == hand_ms(m1.players.north));
            assert(m2.players.at(Wind::East) == m1.players.at(Wind::East));
            assert(m2.players.at(Wind::South) == m1.players.at(Wind::South));
            assert(m2.players.at(Wind::West) == m1.players.at(Wind::West));
        },
    }
    assert(match_seq(m2).to_multiset() =~= match_seq(m1).to_multiset());
}

/// The matcher yields no call for seat `q` on a discard of value `v` by
/// `seat`.
pub open spec fn no_calls_for(m: MatchState, q: Wind, seat: Wind, v: Tile) -> bool {
    exists|l2: Seq<Call>| #![trigger l2.len()]
        possible_calls_ok(l2, m.players.at(q).tiles@, v, wind_next(seat) == q) && l2.len() == 0
}

/// What the waiting map must look like right after `seat` discarded a tile
/// of value `v`: each other seat appears exactly when it has at least one
/// valid call.
pub open spec fn waiting_ok(
    w: PerSeat<Option<Vec<Call>>>,
    m: MatchState,
    seat: Wind,
    v: Tile,
) -> bool {
    &&& w.at(seat) is None
    &&& forall|q: Wind| q != seat ==> match #[trigger] w.at(q) {
        Some(l) => possible_calls_ok(l@, m.players.at(q).tiles@, v, wind_next(seat) == q)
            && l@.len() > 0,
        None => no_calls_for(m, q, seat, v),
    }
}

impl MatchState {
    /// Discards a tile for the seat whose turn it is.
    ///
    /// On success the tile moves into the seat's discard pile, and either
    /// some other seat can call the tile — the state moves to
    /// `AwaitingCalls`, holding each such seat's valid calls — or nobody
    /// can, and the next seat in turn order is to draw.
    #[verifier::rlimit(100)]
    pub fn discard_tile(&mut self, seat: Wind, tile: TileId) -> (r: Result<(), MatchError>)
        requires
            match_wf(*old(self)),
        ensures
            match_wf(*final(self)),
            !(old(self).turn_state matches TurnState::AwaitingDiscard(p) && p == seat) ==> r
                == Err::<(), MatchError>(
                MatchError::InvalidAction {
                    expected: TurnStateKind::AwaitingDiscard,
                    actual: turn_kind(old(self).turn_state),
                },
            ) && *final(self) == *old(self),
            (old(self).turn_state matches TurnState::AwaitingDiscard(p) && p == seat) ==> {
                let h = old(self).players.at(seat);
                let draw = discarded_draw(h);
                if !contains_id(h.tiles@, tile) && draw.id != tile {
                    r == Err::<(), MatchError>(MatchError::Discard(DiscardError::NotInHand))
                        && *final(self) == *old(self)
                } else {
                    let v = tile_of_id(tile.0 as int);
                    &&& r is Ok
                    &&& hand_discarded(h, final(self).players.at(seat), tile, draw)
                    &&& forall|q: Wind| q != seat ==> final(self).players.at(q) == old(
                        self,
                    ).players.at(q)
                    &&& final(self).wall@ == old(self).wall@
                    &&& final(self).id == old(self).id
                    &&& tile.0 < 136
                    &&& match final(self).turn_state {
                        TurnState::AwaitingDraw(n) => n == wind_next(seat) && (forall|q: Wind|
                            q != seat ==> #[trigger] no_calls_for(*final(self), q, seat, v)),
                        TurnState::AwaitingCalls { discarding_player, discard, calls, waiting } => {
                            &&& discarding_player == seat
                            &&& discard == tile
                            &&& forall|q: Wind| #[trigger] calls.at(q) is None
                            &&& waiting_ok(waiting, *final(self), seat, v)
                            &&& exists|q: Wind| #[trigger] waiting.at(q) is Some
                        },
                        _ => false,
                    }
                }
            },
    {
        let ok = match &self.turn_state {
            TurnState::AwaitingDiscard(p) => *p == seat,
            _ => false,
        };
        if !ok {
            let actual = self.turn_kind_exec();
            return Err(
                MatchError::InvalidAction { expected: TurnStateKind::AwaitingDiscard, actual },
            );
        }
        let ghost before = *self;
        match self.hand_discard_at(seat, tile) {
            Err(e) => {
                return Err(MatchError::Discard(e));
            },
            Ok(()) => {},
        }
        proof {
            lemma_discard_conserves(before, *self, seat, tile, discarded_draw(
                before.players.at(seat),
            ));
            // The moved instance carries the id the caller named, so the id
            // is a canonical one and its value is the discarded value.
            lemma_call_count_bounds(*self, seat, wind_next(seat), wind_next(wind_next(seat)));
            lemma_call_count_bounds(
                *self,
                seat,
                wind_next(wind_next(seat)),
                wind_next(wind_next(wind_next(seat))),
            );
            lemma_call_count_bounds(
                *self,
                seat,
                wind_next(wind_next(wind_next(seat))),
                wind_next(seat),
            );
            assert(self.players.at(seat).discards@.last() == discarded_instance(
                before.players.at(seat),
                tile,
                discarded_draw(before.players.at(seat)),
            )) by {
                if contains_id(before.players.at(seat).tiles@, tile) {
                    lemma_id_index(before.players.at(seat).tiles@, tile);
                }
            }
            assert(self.players.at(seat).discards@.last().id == tile) by {
                if contains_id(before.players.at(seat).tiles@, tile) {
                    lemma_id_index(before.players.at(seat).tiles@, tile);
                }
            }
        }
        let v = by_id(tile);
        proof {
            assert(v == self.players.at(seat).discards@.last().tile);
        }
        let w_east = self.seat_calls(Wind::East, seat, v);
        let w_south = self.seat_calls(Wind::South, seat, v);
        let w_west = self.seat_calls(Wind::West, seat, v);
        let w_north = self.seat_calls(Wind::North, seat, v);
        let any = w_east.is_some() || w_south.is_some() || w_west.is_some() || w_north.is_some();
        let waiting = PerSeat { east: w_east, south: w_south, west: w_west, north: w_north };
        let ghost wsnap = waiting;
        if any {
            self.turn_state = TurnState::AwaitingCalls {
                discarding_player: seat,
                discard: tile,
                calls: PerSeat { east: None, south: None, west: None, north: None },
                waiting,
            };
            proof {
                assert(waiting_ok(wsnap, *self, seat, tile_of_id(tile.0 as int))) by {
                    assert(wsnap.at(Wind::East) == w_east);
                    assert(wsnap.at(Wind::South) == w_south);
                    assert(wsnap.at(Wind::West) == w_west);
                    assert(wsnap.at(Wind::North) == w_north);
                }
                lemma_discard_turn_wf(*self, seat, tile);
                if w_east is Some {
                    assert(wsnap.at(Wind::East) is Some);
                } else if w_south is Some {
                    assert(wsnap.at(Wind::South) is Some);
                } else if w_west is Some {
                    assert(wsnap.at(Wind::West) is Some);
                } else {
                    assert(wsnap.at(Wind::North) is Some);
                }
            }
        } else {
            self.turn_state = TurnState::AwaitingDraw(seat.next());
            proof {
                assert forall|q: Wind| q != seat implies #[trigger] no_calls_for(
                    *self,
                    q,
                    seat,
                    tile_of_id(tile.0 as int),
                ) by {
                    assert(wsnap.at(q) is None);
                }
                assert forall|q: Wind| #[trigger] self.players.at(q).current_draw is None by {
                    if q != seat {
                        assert(self.players.at(q) == before.players.at(q));
                    }
                }
            }
        }
        proof {
            assert forall|q: Wind| hand_budget_ok(#[trigger] self.players.at(q)) by {
                if q != seat {
                    assert(self.players.at(q) == before.players.at(q));
                } else {
                    let h1 = before.players.at(seat);
                    let h2 = self.players.at(seat);
                    if contains_id(h1.tiles@, tile) {
                        lemma_id_index(h1.tiles@, tile);
                    }
                }
            }
        }
        Ok(())
    }

    /// Performs the hand-level discard for a seat.
    fn hand_discard_at(&mut self, seat: Wind, id: TileId) -> (r: Result<(), DiscardError>)
        requires
            old(self).players.at(seat).current_draw is Some,
        ensures
            ({
                let h = old(self).players.at(seat);
                let draw = discarded_draw(h);
                &&& (!contains_id(h.tiles@, id) && draw.id != id) ==> r == Err::<(), DiscardError>(
                    DiscardError::NotInHand,
                ) && *final(self) == *old(self)
                &&& (contains_id(h.tiles@, id) || draw.id == id) ==> r is Ok && hand_discarded(
                    h,
                    final(self).players.at(seat),
                    id,
                    draw,
                )
            }),
            forall|q: Wind| q != seat ==> final(self).players.at(q) == old(self).players.at(q),
            final(self).wall == old(self).wall,
            final(self).turn_state == old(self).turn_state,
            final(self).id == old(self).id,
    {
        let dr = match seat {
            Wind::East => self.players.east.discard_tile(id),
            Wind::South => self.players.south.discard_tile(id),
            Wind::West => self.players.west.discard_tile(id),
            Wind::North => self.players.north.discard_tile(id),
        };
        match dr {
            Ok(()) => Ok(()),
            Err(DiscardError::NotInHand) => Err(DiscardError::NotInHand),
            Err(DiscardError::NoDraw) => {
                proof {
                    assert(false);
                }
                Err(DiscardError::NoDraw)
            },
        }
    }

    /// The calls one seat may make on the fresh discard, or nothing when
    /// the seat is the discarder or has no valid call.
    fn seat_calls(&self, q: Wind, seat: Wind, v: Tile) -> (r: Option<Vec<Call>>)
        requires
            q != seat ==> tiles_distinct(self.players.at(q).tiles@) && count_value(
                self.players.at(q).tiles@,
                v,
            ) <= 3,
        ensures
            q == seat ==> r is None,
            q != seat ==> match r {
                Some(l) => possible_calls_ok(l@, self.players.at(q).tiles@, v, wind_next(seat) == q)
                    && l@.len() > 0,
                None => no_calls_for(*self, q, seat, v),
            },
    {
        if q == seat {
            return None;
        }
        let can_chii = seat.next() == q;
        let l = self.players.get(q).find_possible_calls(v, can_chii);
        if l.len() > 0 {
            Some(l)
        } else {
            proof {
                assert(possible_calls_ok(l@, self.players.at(q).tiles@, v, wind_next(seat) == q)
                    && l@.len() == 0);
            }
            None
        }
    }
}

/// The current draw of a hand that holds one.
pub open spec fn discarded_draw(h: HandState) -> TileInstance {
    match h.current_draw {
        Some(t) => t,
        None => TileInstance { id: TileId(0), tile: crate::tile::Tile::Wind(Wind::East) },
    }
}

/// After a discard with callers, the freshly built `AwaitingCalls` state is
/// well-formed: all the turn conditions hold, and in particular no two
/// seats can pon and no two can kan the same discard.
#[verifier::rlimit(100)]
proof fn lemma_discard_turn_wf(m: MatchState, seat: Wind, tile: TileId)
    requires
        conserves_tiles(m),
        forall|q: Wind| #[trigger] m.players.at(q).current_draw is None,
        m.players.at(seat).discards@.len() > 0,
        m.players.at(seat).discards@.last().id == tile,
        tile.0 < 136,
        m.turn_state matches TurnState::AwaitingCalls { discarding_player, discard, calls, waiting }
            && discarding_player == seat && discard == tile && (forall|q: Wind|
            #[trigger] calls.at(q) is None) && waiting_ok(
            waiting,
            m,
            seat,
            tile_of_id(tile.0 as int),
        ),
    ensures
        turn_wf(m),
{
    let v = tile_of_id(tile.0 as int);
    match m.turn_state {
        TurnState::AwaitingCalls { discarding_player, discard, calls, waiting } => {
            assert(m.players.at(seat).discards@.last().tile == v) by {
                lemma_call_count_bounds(m, seat, wind_next(seat), wind_next(wind_next(seat)));
            }
            assert forall|q1: Wind, q2: Wind|
                q1 != q2 implies !(#[trigger] seat_offers_kind(calls, waiting, q1, CallKind::Pon)
                && #[trigger] seat_offers_kind(calls, waiting, q2, CallKind::Pon)) by {
                if seat_offers_kind(calls, waiting, q1, CallKind::Pon) && seat_offers_kind(
                    calls,
                    waiting,
                    q2,
                    CallKind::Pon,
                ) {
                    lemma_offer_needs_copies(m, seat, q1, waiting, calls, v);
                    lemma_offer_needs_copies(m, seat, q2, waiting, calls, v);
                    lemma_call_count_bounds(m, seat, q1, q2);
                }
            }
            assert forall|q1: Wind, q2: Wind|
                q1 != q2 implies !(seat_offers_kind(calls, waiting, q1, CallKind::Kan)
                && seat_offers_kind(calls, waiting, q2, CallKind::Kan)) by {
                if seat_offers_kind(calls, waiting, q1, CallKind::Kan) && seat_offers_kind(
                    calls,
                    waiting,
                    q2,
                    CallKind::Kan,
                ) {
                    lemma_offer_needs_copies(m, seat, q1, waiting, calls, v);
                    lemma_offer_needs_copies(m, seat, q2, waiting, calls, v);
                    lemma_call_count_bounds(m, seat, q1, q2);
                }
            }
            assert forall|q: Wind|
                seat_offers_kind(calls, waiting, q, CallKind::Chii) implies q == wind_next(
                seat,
            ) by {
                if q != wind_next(seat) {
                    lemma_offer_chii_only_left(m, seat, q, waiting, calls, v);
                }
            }
            assert(waiting.at(seat) is None);
        },
        _ => {},
    }
}

/// A seat offering a pon holds at least two matching copies; one offering a
/// kan holds three.
proof fn lemma_offer_needs_copies(
    m: MatchState,
    seat: Wind,
    q: Wind,
    waiting: PerSeat<Option<Vec<Call>>>,
    calls: PerSeat<Option<Call>>,
    v: Tile,
)
    requires
        waiting_ok(waiting, m, seat, v),
        forall|q2: Wind| #[trigger] calls.at(q2) is None,
        seat_offers_kind(calls, waiting, q, CallKind::Pon) || seat_offers_kind(
            calls,
            waiting,
            q,
            CallKind::Kan,
        ),
    ensures
        seat_offers_kind(calls, waiting, q, CallKind::Pon) ==> count_value(
            m.players.at(q).tiles@,
            v,
        ) >= 2,
        seat_offers_kind(calls, waiting, q, CallKind::Kan) ==> count_value(
            m.players.at(q).tiles@,
            v,
        ) >= 3,
        q != seat,
{
    assert(q != seat) by {
        if q == seat {
            assert(waiting.at(seat) is None);
        }
    }
    let s = m.players.at(q).tiles@;
    if seat_offers_kind(calls, waiting, q, CallKind::Pon) {
        let l = waiting.at(q)->Some_0;
        let i = choose|i: int| 0 <= i < l@.len() && kind_of(#[trigger] l@[i]) == CallKind::Pon;
        let pk = crate::hand::ponkan_options(s, v);
        let cl = l@.len() - pk.len();
        assert(possible_calls_ok(l@, s, v, wind_next(seat) == q));
        if i < cl {
            assert(l@.take(cl as int)[i] == l@[i]);
            assert(l@.take(cl as int)[i] is Chii);
            assert(false);
        } else {
            assert(l@.skip(cl as int)[i - cl] == l@[i]);
            assert(pk[i - cl] == l@[i]);
            assert(count_value(s, v) >= 2);
        }
    }
    if seat_offers_kind(calls, waiting, q, CallKind::Kan) {
        let l = waiting.at(q)->Some_0;
        let i = choose|i: int| 0 <= i < l@.len() && kind_of(#[trigger] l@[i]) == CallKind::Kan;
        let pk = crate::hand::ponkan_options(s, v);
        let cl = l@.len() - pk.len();
        assert(possible_calls_ok(l@, s, v, wind_next(seat) == q));
        if i < cl {
            assert(l@.take(cl as int)[i] == l@[i]);
            assert(l@.take(cl as int)[i] is Chii);
            assert(false);
        } else {
            assert(l@.skip(cl as int)[i - cl] == l@[i]);
            assert(pk[i - cl] == l@[i]);
            assert(count_value(s, v) >= 3);
        }
    }
}

/// Only the seat to the discarder's left is offered chii calls.
proof fn lemma_offer_chii_only_left(
    m: MatchState,
    seat: Wind,
    q: Wind,
    waiting: PerSeat<Option<Vec<Call>>>,
    calls: PerSeat<Option<Call>>,
    v: Tile,
)
    requires
        waiting_ok(waiting, m, seat, v),
        forall|q2: Wind| #[trigger] calls.at(q2) is None,
        q != wind_next(seat),
    ensures
        !seat_offers_kind(calls, waiting, q, CallKind::Chii),
{
    if seat_offers_kind(calls, waiting, q, CallKind::Chii) {
        assert(q != seat) by {
            if q == seat {
                assert(waiting.at(seat) is None);
            }
        }
        let l = waiting.at(q)->Some_0;
        let i = choose|i: int| 0 <= i < l@.len() && kind_of(#[trigger] l@[i]) == CallKind::Chii;
        let s = m.players.at(q).tiles@;
        let pk = crate::hand::ponkan_options(s, v);
        let cl = l@.len() - pk.len();
        assert(possible_calls_ok(l@, s, v, false));
        assert(cl == 0);
        assert(l@.skip(0) =~= l@);
        assert(pk[i] == l@[i]);
        let n = count_value(s, v);
        if n >= 2 {
            if i == 0 {
                assert(l@[i] == crate::hand::pon_option(s, v));
                assert(false);
            } else {
                assert(l@[i] == Call::Kan(v));
                assert(false);
            }
        } else {
            assert(false);
        }
    }
}



// ---------------------------------------------------------------------------
// Registering calls.
// ---------------------------------------------------------------------------

impl<T> PerSeat<T> {
    /// Replaces one seat's entry.
    pub fn set(&mut self, seat: Wind, v: T)
        ensures
            forall|q: Wind| #[trigger] final(self).at(q) == if q == seat {
                v
            } else {
                old(self).at(q)
            },
    {
        match seat {
            Wind::East => self.east = v,
            Wind::South => self.south = v,
            Wind::West => self.west = v,
            Wind::North => self.north = v,
        }
    }
}

/// Whether a call list holds the given call.
pub fn contains_call(l: &Vec<Call>, c: Call) -> (r: bool)
    ensures
        r == l@.contains(c),
{
    let mut k: usize = 0;
    while k < l.len()
        invariant
            k <= l@.len(),
            forall|m: int| 0 <= m < k ==> l@[m] != c,
        decreases l@.len() - k,
    {
        if l[k] == c {
            return true;
        }
        k = k + 1;
    }
    false
}

/// Each hand's concealed tiles and discards are duplicate-free and
/// canonical in a conserving match.
pub proof fn lemma_hand_tiles_facts(m: MatchState, q: Wind)
    requires
        conserves_tiles(m),
    ensures
        tiles_distinct(m.players.at(q).tiles@),
        forall|k: int| 0 <= k < m.players.at(q).tiles@.len() ==> instance_ok(
            #[trigger] m.players.at(q).tiles@[k],
        ),
        forall|k: int| 0 <= k < m.players.at(q).discards@.len() ==> instance_ok(
            #[trigger] m.players.at(q).discards@[k],
        ),
{
    broadcast use vstd::multiset::group_multiset_axioms;
    broadcast use vstd::seq_lib::group_to_multiset_ensures;

    lemma_canonical_counts();
    lemma_seat_counts(m);
    lemma_hand_component_counts(m.players.at(Wind::East));
    lemma_hand_component_counts(m.players.at(Wind::South));
    lemma_hand_component_counts(m.players.at(Wind::West));
    lemma_hand_component_counts(m.players.at(Wind::North));
    let canon = tile_set_seq().to_multiset();
    assert forall|x: TileInstance| #[trigger] m.players.at(q).tiles@.to_multiset().count(x)
        <= canon.count(x) by {
        assert(m.players.at(q).tiles@.to_multiset().count(x) <= hand_ms(m.players.at(q)).count(x));
        assert(match_seq(m).to_multiset().count(x) == canon.count(x));
    }
    lemma_part_facts(m.players.at(q).tiles@, canon);
    assert forall|x: TileInstance| #[trigger] m.players.at(q).discards@.to_multiset().count(x)
        <= canon.count(x) by {
        assert(m.players.at(q).discards@.to_multiset().count(x) <= hand_ms(
            m.players.at(q),
        ).count(x));
        assert(match_seq(m).to_multiset().count(x) == canon.count(x));
    }
    lemma_part_facts(m.players.at(q).discards@, canon);
}

/// How registering one seat's decision changes the call phase: the seat
/// leaves the waiting map, its call (if any) is recorded, and nothing else
/// moves.
pub open spec fn call_registered(
    m1: MatchState,
    m2: MatchState,
    seat: Wind,
    call: Option<Call>,
) -> bool {
    let (dp, d, cs, w) = calls_parts(m1.turn_state);
    let (dp2, d2, cs2, w2) = calls_parts(m2.turn_state);
    &&& m2.players == m1.players
    &&& m2.wall == m1.wall
    &&& m2.id == m1.id
    &&& m2.turn_state is AwaitingCalls
    &&& dp2 == dp
    &&& d2 == d
    &&& forall|q: Wind| #[trigger] w2.at(q) == if q == seat {
        None::<Vec<Call>>
    } else {
        w.at(q)
    }
    &&& forall|q: Wind| #[trigger] cs2.at(q) == if q == seat && call is Some {
        call
    } else {
        cs.at(q)
    }
}

impl MatchState {
    /// Registers one seat's decision during the call phase: the submitted
    /// call (which must be among the seat's valid calls), or a pass. The
    /// turn state does not advance here; once nobody is left waiting,
    /// [`MatchState::decide_call`] applies the outcome.
    pub fn call_tile(&mut self, seat: Wind, call: Option<Call>) -> (r: Result<(), MatchError>)
        requires
            match_wf(*old(self)),
        ensures
            match_wf(*final(self)),
            !(old(self).turn_state is AwaitingCalls) ==> r == Err::<(), MatchError>(
                MatchError::InvalidAction {
                    expected: TurnStateKind::AwaitingCalls,
                    actual: turn_kind(old(self).turn_state),
                },
            ) && *final(self) == *old(self),
            old(self).turn_state matches TurnState::AwaitingCalls {
                discarding_player,
                discard,
                calls,
                waiting,
            } ==> {
                if waiting.at(seat) is None {
                    r == Err::<(), MatchError>(MatchError::NotWaiting) && *final(self) == *old(
                        self,
                    )
                } else {
                    if call is Some && !(waiting.at(seat)->Some_0)@.contains(call->Some_0) {
                        r == Err::<(), MatchError>(MatchError::CallNotAllowed) && *final(self)
                            == *old(self)
                    } else {
                        r is Ok && call_registered(*old(self), *final(self), seat, call)
                    }
                }
            },
    {
        let ok = match &self.turn_state {
            TurnState::AwaitingCalls { .. } => true,
            _ => false,
        };
        if !ok {
            let actual = self.turn_kind_exec();
            return Err(
                MatchError::InvalidAction { expected: TurnStateKind::AwaitingCalls, actual },
            );
        }
        // Validate before touching anything.
        match &self.turn_state {
            TurnState::AwaitingCalls { waiting, .. } => match waiting.get(seat) {
                None => {
                    return Err(MatchError::NotWaiting);
                },
                Some(l) => match call {
                    Some(c) => {
                        if !contains_call(l, c) {
                            return Err(MatchError::CallNotAllowed);
                        }
                    },
                    None => {},
                },
            },
            _ => {
                proof {
                    assert(false);
                }
            },
        }
        let ghost before = *self;
        let mut ts = TurnState::MatchEnded { winner: None };
        core::mem::swap(&mut ts, &mut self.turn_state);
        match ts {
            TurnState::AwaitingCalls { discarding_player, discard, mut calls, mut waiting } => {
                waiting.set(seat, None);
                match call {
                    Some(c) => {
                        calls.set(seat, Some(c));
                    },
                    None => {},
                }
                self.turn_state = TurnState::AwaitingCalls {
                    discarding_player,
                    discard,
                    calls,
                    waiting,
                };
            },
            _ => {
                proof {
                    assert(false);
                }
            },
        }
        proof {
            lemma_register_wf(before, *self, seat, call);
        }
        Ok(())
    }

    /// Registers a call like [`MatchState::call_tile`] and reports whether
    /// every seat has now called or passed.
    pub fn request_call(&mut self, seat: Wind, call: Option<Call>) -> (r: Result<
        bool,
        MatchError,
    >)
        requires
            match_wf(*old(self)),
        ensures
            match_wf(*final(self)),
            !(old(self).turn_state is AwaitingCalls) ==> r == Err::<bool, MatchError>(
                MatchError::InvalidAction {
                    expected: TurnStateKind::AwaitingCalls,
                    actual: turn_kind(old(self).turn_state),
                },
            ) && *final(self) == *old(self),
            old(self).turn_state matches TurnState::AwaitingCalls { calls, waiting, .. } ==> {
                if waiting.at(seat) is None {
                    r == Err::<bool, MatchError>(MatchError::NotWaiting) && *final(self) == *old(
                        self,
                    )
                } else {
                    if call is Some && !(waiting.at(seat)->Some_0)@.contains(call->Some_0) {
                        r == Err::<bool, MatchError>(MatchError::CallNotAllowed) && *final(self)
                            == *old(self)
                    } else {
                        &&& r is Ok
                        &&& call_registered(*old(self), *final(self), seat, call)
                        &&& r->Ok_0 == no_seat_waiting(*final(self))
                        &&& r->Ok_0 == (forall|q: Wind|
                            q != seat ==> (#[trigger] waiting.at(q)) is None)
                    }
                }
            },
    {
        match self.call_tile(seat, call) {
            Ok(()) => {
                let done = self.waiting_done();
                proof {
                    // Nobody is left waiting exactly when every other seat
                    // had already answered before this registration.
                    let (dp0, d0, cs0, w0) = calls_parts(old(self).turn_state);
                    let (dp2, d2, cs2, w2) = calls_parts(self.turn_state);
                    assert(call_registered(*old(self), *self, seat, call));
                    assert(w2.at(seat) is None);
                    if done {
                        assert forall|q: Wind| q != seat implies (#[trigger] w0.at(q))
                            is None by {
                            assert(w2.at(q) == w0.at(q));
                        }
                    } else {
                        let q = choose|q: Wind| !((#[trigger] w2.at(q)) is None);
                        assert(q != seat);
                        assert(w0.at(q) is Some);
                    }
                }
                Ok(done)
            },
            Err(e) => Err(e),
        }
    }

    /// Whether nobody is left to call or pass.
    fn waiting_done(&self) -> (r: bool)
        ensures
            r == no_seat_waiting(*self),
    {
        match &self.turn_state {
            TurnState::AwaitingCalls { waiting, .. } => {
                waiting.get(Wind::East).is_none() && waiting.get(Wind::South).is_none()
                    && waiting.get(Wind::West).is_none() && waiting.get(Wind::North).is_none()
            },
            _ => true,
        }
    }
}

/// No seat still has to call or pass.
pub open spec fn no_seat_waiting(m: MatchState) -> bool {
    match m.turn_state {
        TurnState::AwaitingCalls { waiting, .. } => forall|q: Wind| #[trigger] waiting.at(q)
            is None,
        _ => true,
    }
}

/// Registering one validated call keeps the match well-formed.
#[verifier::rlimit(100)]
proof fn lemma_register_wf(m1: MatchState, m2: MatchState, seat: Wind, call: Option<Call>)
    requires
        match_wf(m1),
        m2.players == m1.players,
        m2.wall == m1.wall,
        m1.turn_state matches TurnState::AwaitingCalls { .. },
        ({
            let (dp, d, calls, waiting) = calls_parts(m1.turn_state);
            let (dp2, d2, calls2, waiting2) = calls_parts(m2.turn_state);
            &&& m2.turn_state matches TurnState::AwaitingCalls { .. }
            &&& dp2 == dp
            &&& d2 == d
            &&& waiting.at(seat) is Some
            &&& call matches Some(c) ==> (waiting.at(seat)->Some_0)@.contains(c)
            &&& forall|q: Wind| #[trigger] waiting2.at(q) == if q == seat {
                None::<Vec<Call>>
            } else {
                waiting.at(q)
            }
            &&& forall|q: Wind| #[trigger] calls2.at(q) == if q == seat && call is Some {
                call
            } else {
                calls.at(q)
            }
        }),
    ensures
        match_wf(m2),
{
    let (dp, d, calls, waiting) = calls_parts(m1.turn_state);
    let (dp2, d2, calls2, waiting2) = calls_parts(m2.turn_state);
    let v = tile_of_id(d.0 as int);
    assert(match_seq(m2) == match_seq(m1));
    lemma_hand_tiles_facts(m1, seat);
    let l = waiting.at(seat)->Some_0;
    assert(possible_calls_ok(l@, m1.players.at(seat).tiles@, v, wind_next(dp) == seat));
    match call {
        Some(c) => {
            crate::hand::lemma_possible_calls_valid(
                l@,
                m1.players.at(seat).tiles@,
                v,
                wind_next(dp) == seat,
                c,
            );
            if c is Chii {
                lemma_chii_needs_left(l@, m1.players.at(seat).tiles@, v, wind_next(dp) == seat);
            }
            assert(l@.len() >= 0 && possible_calls_ok(
                l@,
                m1.players.at(seat).tiles@,
                v,
                wind_next(dp) == seat,
            ) && l@.contains(c));
        },
        None => {},
    }
    // Every offer in the new state was already offered before.
    assert forall|q: Wind, k: CallKind|
        #[trigger] seat_offers_kind(calls2, waiting2, q, k) implies seat_offers_kind(
        calls,
        waiting,
        q,
        k,
    ) by {
        if q == seat {
            match calls2.at(q) {
                Some(c) => {
                    if kind_of(c) == k {
                        match call {
                            Some(c0) => {
                                assert(calls.at(seat) is None);
                                assert(c == c0);
                                let i = choose|i: int| 0 <= i < l@.len() && l@[i] == c0;
                                assert(kind_of(l@[i]) == k);
                                assert(seat_offers_kind(calls, waiting, q, k));
                            },
                            None => {
                                assert(calls2.at(seat) == calls.at(seat));
                            },
                        }
                    }
                },
                None => {},
            }
        }
    }
    assert(turn_wf(m2));
}

/// The four fields of an `AwaitingCalls` state.
pub open spec fn calls_parts(t: TurnState) -> (Wind, TileId, PerSeat<Option<Call>>, PerSeat<
    Option<Vec<Call>>,
>) {
    match t {
        TurnState::AwaitingCalls { discarding_player, discard, calls, waiting } => (
            discarding_player,
            discard,
            calls,
            waiting,
        ),
        _ => (
            Wind::East,
            TileId(0),
            PerSeat { east: None, south: None, west: None, north: None },
            PerSeat { east: None, south: None, west: None, north: None },
        ),
    }
}

/// A call list only offers chii when the caller may chii.
proof fn lemma_chii_needs_left(l: Seq<Call>, s: Seq<TileInstance>, v: Tile, can_chii: bool)
    requires
        possible_calls_ok(l, s, v, can_chii),
        exists|i: int| 0 <= i < l.len() && (#[trigger] l[i]) is Chii,
    ensures
        can_chii,
{
    if !can_chii {
        let i = choose|i: int| 0 <= i < l.len() && (#[trigger] l[i]) is Chii;
        let pk = crate::hand::ponkan_options(s, v);
        let cl = l.len() - pk.len();
        assert(cl == 0);
        assert(l.skip(0) =~= l);
        assert(pk[i] == l[i]);
        let n = count_value(s, v);
        if n >= 2 {
            if i == 0 {
                assert(l[i] == crate::hand::pon_option(s, v));
            } else {
                assert(l[i] == Call::Kan(v));
            }
        }
        assert(false);
    }
}



// ---------------------------------------------------------------------------
// Deciding the call phase.
// ---------------------------------------------------------------------------

/// The registered calls can be compared: no rons (the matcher never offers
/// them), pairwise distinct kinds, and none by the discarder.
pub open spec fn decide_ready(calls: PerSeat<Option<Call>>, dp: Wind) -> bool {
    &&& forall|q: Wind| (#[trigger] calls.at(q)) is Some ==> !(calls.at(q)->Some_0 is Ron)
    &&& forall|q1: Wind, q2: Wind|
        q1 != q2 && (#[trigger] calls.at(q1)) is Some && (#[trigger] calls.at(q2)) is Some
            ==> kind_of(calls.at(q1)->Some_0) != kind_of(calls.at(q2)->Some_0)
    &&& calls.at(dp) is None
}

/// `b` is a registered call beating every registered call of the seats in
/// `dom` (or there is none to beat).
pub open spec fn dominates(
    b: Option<(Wind, Call)>,
    calls: PerSeat<Option<Call>>,
    dom: Set<Wind>,
    dp: Wind,
) -> bool {
    match b {
        None => forall|q: Wind| dom.contains(q) ==> (#[trigger] calls.at(q)) is None,
        Some(p) => {
            &&& dom.contains(p.0)
            &&& calls.at(p.0) == Some(p.1)
            &&& forall|q: Wind|
                dom.contains(q) && q != p.0 && (#[trigger] calls.at(q)) is Some
                    ==> compare_calls_spec(p.0, p.1, q, calls.at(q)->Some_0, dp)
                    == core::cmp::Ordering::Greater
        },
    }
}

/// Beating is transitive.
proof fn lemma_compare_trans(
    s1: Wind,
    c1: Call,
    s2: Wind,
    c2: Call,
    s3: Wind,
    c3: Call,
    dp: Wind,
)
    requires
        compare_calls_spec(s1, c1, s2, c2, dp) == core::cmp::Ordering::Greater,
        compare_calls_spec(s2, c2, s3, c3, dp) == core::cmp::Ordering::Greater,
    ensures
        compare_calls_spec(s1, c1, s3, c3, dp) == core::cmp::Ordering::Greater,
{
}

/// Between two ron-free calls of different kinds, exactly one side beats
/// the other.
proof fn lemma_compare_flip(ls: Wind, lc: Call, rs: Wind, rc: Call, dp: Wind)
    requires
        !(lc is Ron),
        !(rc is Ron),
        kind_of(lc) != kind_of(rc),
    ensures
        (compare_calls_spec(ls, lc, rs, rc, dp) == core::cmp::Ordering::Greater) || (
        compare_calls_spec(rs, rc, ls, lc, dp) == core::cmp::Ordering::Greater),
        !((compare_calls_spec(ls, lc, rs, rc, dp) == core::cmp::Ordering::Greater) && (
        compare_calls_spec(rs, rc, ls, lc, dp) == core::cmp::Ordering::Greater)),
{
}

/// Folds one seat into the running best call.
fn consider_call(
    best: Option<(Wind, Call)>,
    q: Wind,
    cq: Option<Call>,
    dp: Wind,
    Ghost(calls): Ghost<PerSeat<Option<Call>>>,
    Ghost(dom): Ghost<Set<Wind>>,
) -> (r: Option<(Wind, Call)>)
    requires
        decide_ready(calls, dp),
        dominates(best, calls, dom, dp),
        cq == calls.at(q),
        !dom.contains(q),
    ensures
        dominates(r, calls, dom.insert(q), dp),
{
    match cq {
        None => best,
        Some(c) => match best {
            None => {
                proof {
                    assert forall|x: Wind| dom.insert(q).contains(x) && x != q && (
                    #[trigger] calls.at(x)) is Some implies compare_calls_spec(
                        q,
                        c,
                        x,
                        calls.at(x)->Some_0,
                        dp,
                    ) == core::cmp::Ordering::Greater by {
                        assert(dom.contains(x));
                        assert(calls.at(x) is None);
                    }
                }
                Some((q, c))
            },
            Some((bw, bc)) => {
                proof {
                    assert(bw != q);
                    assert(kind_of(c) != kind_of(bc));
                    assert(!(c is Ron) && !(bc is Ron));
                }
                let ord = crate::hand::compare_calls(q, c, bw, bc, dp);
                match ord {
                    core::cmp::Ordering::Greater => {
                        proof {
                            assert forall|x: Wind|
                                dom.insert(q).contains(x) && x != q && (#[trigger] calls.at(x))
                                    is Some implies compare_calls_spec(
                                q,
                                c,
                                x,
                                calls.at(x)->Some_0,
                                dp,
                            ) == core::cmp::Ordering::Greater by {
                                if x == bw {
                                } else {
                                    assert(compare_calls_spec(
                                        bw,
                                        bc,
                                        x,
                                        calls.at(x)->Some_0,
                                        dp,
                                    ) == core::cmp::Ordering::Greater);
                                    lemma_compare_trans(
                                        q,
                                        c,
                                        bw,
                                        bc,
                                        x,
                                        calls.at(x)->Some_0,
                                        dp,
                                    );
                                }
                            }
                        }
                        Some((q, c))
                    },
                    _ => {
                        proof {
                            lemma_compare_flip(q, c, bw, bc, dp);
                            assert(compare_calls_spec(bw, bc, q, c, dp)
                                == core::cmp::Ordering::Greater);
                        }
                        best
                    },
                }
            },
        },
    }
}

/// `h2` is `h1` with its most recent discard claimed away.
pub open spec fn hand_popped(h1: HandState, h2: HandState) -> bool {
    &&& h2.tiles@ == h1.tiles@
    &&& h2.current_draw == h1.current_draw
    &&& crate::hand::unchanged_melds(h1, h2)
    &&& h2.discards@ == h1.discards@.drop_last()
}

/// `h2` is `h1` with the call `c` applied for the claimed discard `disc`:
/// the very success cases of [`HandState::call_tile`].
pub open spec fn hand_called(h1: HandState, h2: HandState, disc: TileInstance, c: Call) -> bool {
    match c {
        Call::Ron => {
            &&& h2.tiles@ == h1.tiles@.push(disc)
            &&& h2.current_draw == h1.current_draw
            &&& h2.discards@ == h1.discards@
            &&& crate::hand::unchanged_melds(h1, h2)
        },
        Call::Kan(t) => {
            &&& h2.tiles@ == crate::hand::without_value(h1.tiles@, t)
            &&& h2.open_kongs@ == h1.open_kongs@.push(crate::hand::kan_meld(h1.tiles@, disc))
            &&& h2.current_draw == h1.current_draw
            &&& h2.discards@ == h1.discards@
            &&& h2.open_chows == h1.open_chows
            &&& h2.open_pongs == h1.open_pongs
            &&& h2.closed_kongs == h1.closed_kongs
        },
        Call::Pon(a, b) => {
            &&& h2.tiles@ == crate::hand::remove_id(crate::hand::remove_id(h1.tiles@, a), b)
            &&& h2.open_pongs@ == h1.open_pongs@.push(
                crate::hand::pon_meld(h1.tiles@, disc, a, b),
            )
            &&& h2.current_draw == h1.current_draw
            &&& h2.discards@ == h1.discards@
            &&& h2.open_chows == h1.open_chows
            &&& h2.open_kongs == h1.open_kongs
            &&& h2.closed_kongs == h1.closed_kongs
        },
        Call::Chii(a, b) => {
            &&& h2.tiles@ == crate::hand::remove_id(crate::hand::remove_id(h1.tiles@, a), b)
            &&& h2.open_chows@ == h1.open_chows@.push(
                crate::hand::chii_meld(h1.tiles@, disc, a, b),
            )
            &&& h2.current_draw == h1.current_draw
            &&& h2.discards@ == h1.discards@
            &&& h2.open_pongs == h1.open_pongs
            &&& h2.open_kongs == h1.open_kongs
            &&& h2.closed_kongs == h1.closed_kongs
        },
    }
}

impl MatchState {
    /// Claims the discarder's most recent discard back off its pile.
    fn hand_pop_discard_at(&mut self, seat: Wind) -> (r: Option<TileInstance>)
        ensures
            old(self).players.at(seat).discards@.len() == 0 ==> r is None && final(self).players
                .at(seat).discards@ == old(self).players.at(seat).discards@ && final(self).players
                .at(seat).tiles@ == old(self).players.at(seat).tiles@ && final(self).players.at(
                seat,
            ).current_draw == old(self).players.at(seat).current_draw
                && crate::hand::unchanged_melds(
                old(self).players.at(seat),
                final(self).players.at(seat),
            ),
            old(self).players.at(seat).discards@.len() > 0 ==> r == Some(
                old(self).players.at(seat).discards@.last(),
            ) && hand_popped(old(self).players.at(seat), final(self).players.at(seat)),
            forall|q: Wind| q != seat ==> final(self).players.at(q) == old(self).players.at(q),
            final(self).wall == old(self).wall,
            final(self).turn_state == old(self).turn_state,
            final(self).id == old(self).id,
    {
        match seat {
            Wind::East => self.players.east.call_last_discard(),
            Wind::South => self.players.south.call_last_discard(),
            Wind::West => self.players.west.call_last_discard(),
            Wind::North => self.players.north.call_last_discard(),
        }
    }

    /// Applies a call to one seat's hand.
    fn hand_call_at(&mut self, seat: Wind, disc: TileInstance, c: Call) -> (r: Result<
        (),
        CallInvalid,
    >)
        requires
            c matches Call::Kan(t) ==> t == disc.tile,
        ensures
            r is Ok ==> hand_called(old(self).players.at(seat), final(self).players.at(seat), disc, c),
            r is Err ==> *final(self) == *old(self),
            call_valid(old(self).players.at(seat).tiles@, disc.tile, c) ==> r is Ok,
            forall|q: Wind| q != seat ==> final(self).players.at(q) == old(self).players.at(q),
            final(self).wall == old(self).wall,
            final(self).turn_state == old(self).turn_state,
            final(self).id == old(self).id,
    {
        let ghost h = old(self).players.at(seat);
        proof {
            if call_valid(h.tiles@, disc.tile, c) {
                match c {
                    Call::Chii(a, b) => {
                        crate::hand::lemma_id_index(h.tiles@, a);
                        crate::hand::lemma_id_index(h.tiles@, b);
                    },
                    Call::Pon(a, b) => {
                        crate::hand::lemma_id_index(h.tiles@, a);
                        crate::hand::lemma_id_index(h.tiles@, b);
                    },
                    _ => {},
                }
            }
        }
        let r = match seat {
            Wind::East => self.players.east.call_tile(disc, c),
            Wind::South => self.players.south.call_tile(disc, c),
            Wind::West => self.players.west.call_tile(disc, c),
            Wind::North => self.players.north.call_tile(disc, c),
        };
        r
    }

    /// Resolves the call phase once every seat has called or passed: the
    /// highest-precedence call wins, the winner claims the discard into the
    /// matching meld, and play continues left of the winner; when everyone
    /// passed, play continues left of the discarder.
    ///
    /// The head-bump order between two rons is part of [`compare_calls`];
    /// since the matcher never offers a ron, no registered call here is
    /// one.
    #[verifier::rlimit(100)]
    pub fn decide_call(&mut self) -> (r: Result<Option<(Wind, Call)>, MatchError>)
        requires
            match_wf(*old(self)),
        ensures
            match_wf(*final(self)),
            !(old(self).turn_state is AwaitingCalls) ==> r == Err::<Option<(Wind, Call)>, MatchError>(
                MatchError::InvalidAction {
                    expected: TurnStateKind::AwaitingCalls,
                    actual: turn_kind(old(self).turn_state),
                },
            ) && *final(self) == *old(self),
            old(self).turn_state is AwaitingCalls ==> ({
                let (dp, d, cs, w) = calls_parts(old(self).turn_state);
                if exists|q: Wind| (#[trigger] w.at(q)) is Some {
                    r == Err::<Option<(Wind, Call)>, MatchError>(MatchError::StillWaiting)
                        && *final(self) == *old(self)
                } else {
                    if forall|q: Wind| (#[trigger] cs.at(q)) is None {
                        &&& r == Ok::<Option<(Wind, Call)>, MatchError>(None)
                        &&& final(self).turn_state == TurnState::AwaitingDraw(wind_next(dp))
                        &&& final(self).players == old(self).players
                        &&& final(self).wall == old(self).wall
                        &&& final(self).id == old(self).id
                    } else {
                        &&& r is Ok
                        &&& r->Ok_0 is Some
                        &&& ({
                            let (w0, c0) = (r->Ok_0)->Some_0;
                            let disc = old(self).players.at(dp).discards@.last();
                            &&& cs.at(w0) == Some(c0)
                            &&& w0 != dp
                            &&& forall|q: Wind|
                                q != w0 && (#[trigger] cs.at(q)) is Some ==> compare_calls_spec(
                                    w0,
                                    c0,
                                    q,
                                    cs.at(q)->Some_0,
                                    dp,
                                ) == core::cmp::Ordering::Greater
                            &&& hand_popped(
                                old(self).players.at(dp),
                                final(self).players.at(dp),
                            )
                            &&& hand_called(
                                old(self).players.at(w0),
                                final(self).players.at(w0),
                                disc,
                                c0,
                            )
                            &&& forall|q: Wind|
                                q != dp && q != w0 ==> final(self).players.at(q) == old(
                                    self,
                                ).players.at(q)
                            &&& final(self).wall == old(self).wall
                            &&& final(self).id == old(self).id
                            &&& final(self).turn_state == TurnState::AwaitingDraw(wind_next(w0))
                        })
                    }
                }
            }),
    {
        let ok = match &self.turn_state {
            TurnState::AwaitingCalls { .. } => true,
            _ => false,
        };
        if !ok {
            let actual = self.turn_kind_exec();
            return Err(
                MatchError::InvalidAction { expected: TurnStateKind::AwaitingCalls, actual },
            );
        }
        let (dp, d, ce, cso, cwo, cno) = match &self.turn_state {
            TurnState::AwaitingCalls { discarding_player, discard, calls, waiting } => {
                if waiting.get(Wind::East).is_some() || waiting.get(Wind::South).is_some()
                    || waiting.get(Wind::West).is_some() || waiting.get(Wind::North).is_some() {
                    proof {
                        let (dpg, dg, csg, wg) = calls_parts(self.turn_state);
                        if wg.at(Wind::East) is Some {
                            assert(exists|q: Wind| (#[trigger] wg.at(q)) is Some);
                        } else if wg.at(Wind::South) is Some {
                            assert(exists|q: Wind| (#[trigger] wg.at(q)) is Some);
                        } else if wg.at(Wind::West) is Some {
                            assert(exists|q: Wind| (#[trigger] wg.at(q)) is Some);
                        } else {
                            assert(exists|q: Wind| (#[trigger] wg.at(q)) is Some);
                        }
                    }
                    return Err(MatchError::StillWaiting);
                }
                (
                    *discarding_player,
                    *discard,
                    *calls.get(Wind::East),
                    *calls.get(Wind::South),
                    *calls.get(Wind::West),
                    *calls.get(Wind::North),
                )
            },
            _ => {
                proof {
                    assert(false);
                }
                return Err(MatchError::StillWaiting);
            },
        };
        let ghost before = *self;
        let ghost (dpg, dg, csg, wg) = calls_parts(self.turn_state);
        proof {
            // The registered calls are comparable: the matcher offers no
            // ron, two seats never share a callable kind, and only the left
            // neighbour may chii.
            assert(decide_ready(csg, dp)) by {
                assert forall|q: Wind| (#[trigger] csg.at(q)) is Some implies !(csg.at(q)->Some_0
                    is Ron) by {}
                assert forall|q1: Wind, q2: Wind|
                    q1 != q2 && (#[trigger] csg.at(q1)) is Some && (#[trigger] csg.at(q2))
                        is Some implies kind_of(csg.at(q1)->Some_0) != kind_of(
                    csg.at(q2)->Some_0,
                ) by {
                    let k1 = kind_of(csg.at(q1)->Some_0);
                    let k2 = kind_of(csg.at(q2)->Some_0);
                    if k1 == k2 {
                        assert(seat_offers_kind(csg, wg, q1, k1));
                        assert(seat_offers_kind(csg, wg, q2, k2));
                        if k1 == CallKind::Chii {
                            assert(q1 == wind_next(dp) && q2 == wind_next(dp));
                        }
                    }
                }
            }
        }
        let b1 = consider_call(
            None,
            Wind::East,
            ce,
            dp,
            Ghost(csg),
            Ghost(Set::empty()),
        );
        let b2 = consider_call(
            b1,
            Wind::South,
            cso,
            dp,
            Ghost(csg),
            Ghost(Set::empty().insert(Wind::East)),
        );
        let b3 = consider_call(
            b2,
            Wind::West,
            cwo,
            dp,
            Ghost(csg),
            Ghost(Set::empty().insert(Wind::East).insert(Wind::South)),
        );
        let b4 = consider_call(
            b3,
            Wind::North,
            cno,
            dp,
            Ghost(csg),
            Ghost(Set::empty().insert(Wind::East).insert(Wind::South).insert(Wind::West)),
        );
        let ghost all_seats = Set::empty().insert(Wind::East).insert(Wind::South).insert(
            Wind::West,
        ).insert(Wind::North);
        proof {
            assert(dominates(b4, csg, all_seats, dp));
            assert forall|q: Wind| all_seats.contains(q) by {}
        }
        match b4 {
            None => {
                self.turn_state = TurnState::AwaitingDraw(dp.next());
                proof {
                    assert(match_seq(*self) == match_seq(before));
                    assert forall|q: Wind| #[trigger] self.players.at(q).current_draw
                        is None by {}
                }
                Ok(None)
            },
            Some((w0, c0)) => {
                proof {
                    assert(csg.at(w0) == Some(c0));
                    assert(w0 != dp);
                    assert(call_valid(before.players.at(w0).tiles@, tile_of_id(d.0 as int), c0));
                    assert(!(c0 is Ron));
                    lemma_hand_tiles_facts(before, w0);
                    lemma_call_count_bounds(before, dp, wind_next(dp), wind_next(wind_next(dp)));
                }
                let disc = match self.hand_pop_discard_at(dp) {
                    Some(t) => t,
                    None => unreached(),
                };
                proof {
                    assert(disc == before.players.at(dp).discards@.last());
                    assert(disc.id == d);
                    assert(instance_ok(disc)) by {
                        if dp == wind_next(dp) {
                        }
                    }
                    assert(disc.tile == tile_of_id(d.0 as int));
                }
                let cr = self.hand_call_at(w0, disc, c0);
                match cr {
                    Ok(()) => {},
                    Err(_) => {
                        proof {
                            assert(self.players.at(w0) == before.players.at(w0));
                            assert(call_valid(
                                self.players.at(w0).tiles@,
                                disc.tile,
                                c0,
                            ));
                            assert(false);
                        }
                    },
                }
                self.turn_state = TurnState::AwaitingDraw(w0.next());
                proof {
                    lemma_decide_conserves(before, *self, dp, w0, disc, c0);
                    assert forall|q: Wind| #[trigger] self.players.at(q).current_draw
                        is None by {
                        if q != dp && q != w0 {
                            assert(self.players.at(q) == before.players.at(q));
                        }
                    }
                    assert forall|q: Wind| hand_budget_ok(#[trigger] self.players.at(q)) by {
                        if q != dp && q != w0 {
                            assert(self.players.at(q) == before.players.at(q));
                        } else if q == dp && q != w0 {
                            assert(hand_popped(before.players.at(dp), self.players.at(dp)));
                        } else {
                            lemma_called_budget(
                                before.players.at(w0),
                                self.players.at(w0),
                                disc,
                                c0,
                            );
                        }
                    }
                }
                Ok(Some((w0, c0)))
            },
        }
    }
}

/// Applying a valid non-ron call keeps the thirteen-tile budget.
proof fn lemma_called_budget(h1: HandState, h2: HandState, disc: TileInstance, c: Call)
    requires
        hand_called(h1, h2, disc, c),
        call_valid(h1.tiles@, disc.tile, c),
        !(c is Ron),
        tiles_distinct(h1.tiles@),
        hand_budget_ok(h1),
    ensures
        hand_budget_ok(h2),
{
    match c {
        Call::Kan(t) => {
            crate::hand::lemma_three_match_positions(h1.tiles@, t);
            lemma_filter_len_drop(h1.tiles@, t);
        },
        Call::Pon(a, b) => {
            crate::hand::lemma_id_index(h1.tiles@, a);
            crate::hand::lemma_remove_other_id(h1.tiles@, a, b);
            crate::hand::lemma_id_index(crate::hand::remove_id(h1.tiles@, a), b);
        },
        Call::Chii(a, b) => {
            assert(a != b) by {
                if a == b {
                    assert(crate::hand::tile_of_in(h1.tiles@, a) == crate::hand::tile_of_in(
                        h1.tiles@,
                        b,
                    ));
                }
            }
            crate::hand::lemma_id_index(h1.tiles@, a);
            crate::hand::lemma_remove_other_id(h1.tiles@, a, b);
            crate::hand::lemma_id_index(crate::hand::remove_id(h1.tiles@, a), b);
        },
        _ => {},
    }
}

/// Removing exactly the three matching copies shortens the concealed tiles
/// by three.
proof fn lemma_filter_len_drop(s: Seq<TileInstance>, v: Tile)
    requires
        count_value(s, v) == 3,
    ensures
        crate::hand::without_value(s, v).len() == s.len() - 3,
{
    lemma_filter_count_len(s, v);
}

/// Filtering away the matches drops as many elements as the count.
pub proof fn lemma_filter_count_len(s: Seq<TileInstance>, v: Tile)
    ensures
        crate::hand::without_value(s, v).len() == s.len() - count_value(s, v),
    decreases s.len(),
{
    reveal_with_fuel(Seq::filter, 2);
    if s.len() > 0 {
        lemma_filter_count_len(s.drop_last(), v);
    }
}

/// Resolving a call moves the claimed discard from the discarder's pile
/// into the caller's hand and conserves the tiles.
#[verifier::rlimit(100)]
proof fn lemma_decide_conserves(
    m1: MatchState,
    m2: MatchState,
    dp: Wind,
    w0: Wind,
    disc: TileInstance,
    c0: Call,
)
    requires
        conserves_tiles(m1),
        w0 != dp,
        m1.players.at(dp).discards@.len() > 0,
        disc == m1.players.at(dp).discards@.last(),
        hand_popped(m1.players.at(dp), m2.players.at(dp)),
        hand_called(m1.players.at(w0), m2.players.at(w0), disc, c0),
        call_valid(m1.players.at(w0).tiles@, disc.tile, c0),
        tiles_distinct(m1.players.at(w0).tiles@),
        forall|q: Wind| q != dp && q != w0 ==> m2.players.at(q) == m1.players.at(q),
        m2.wall@ == m1.wall@,
    ensures
        conserves_tiles(m2),
{
    broadcast use vstd::seq_lib::group_to_multiset_ensures;
    broadcast use vstd::multiset::group_multiset_axioms;

    lemma_match_ms(m1);
    lemma_match_ms(m2);
    let hd1 = m1.players.at(dp);
    let hd2 = m2.players.at(dp);
    let hw1 = m1.players.at(w0);
    let hw2 = m2.players.at(w0);
    // The discarder's pile loses exactly the claimed instance.
    assert(hd1.discards@ =~= hd2.discards@.push(disc));
    assert(hd1.discards@.to_multiset() == hd2.discards@.to_multiset().insert(disc));
    assert forall|x: TileInstance| true implies hand_ms(hd1).count(x) == hand_ms(hd2).count(x) + (
    if x == disc {
        1int
    } else {
        0int
    }) by {}
    // The caller's hand gains exactly the claimed instance.
    lemma_called_ms(hw1, hw2, disc, c0);
    assert(m2.players.at(Wind::East) == m2.players.east);
    assert(m2.players.at(Wind::South) == m2.players.south);
    assert(m2.players.at(Wind::West) == m2.players.west);
    assert(m2.players.at(Wind::North) == m2.players.north);
    assert(m1.players.at(Wind::East) == m1.players.east);
    assert(m1.players.at(Wind::South) == m1.players.south);
    assert(m1.players.at(Wind::West) == m1.players.west);
    assert(m1.players.at(Wind::North) == m1.players.north);
    assert forall|x: TileInstance| true implies match_seq(m2).to_multiset().count(x) == match_seq(
        m1,
    ).to_multiset().count(x) by {
        assert(hand_ms(hw2).count(x) == hand_ms(hw1).count(x) + if x == disc {
            1int
        } else {
            0int
        });
        assert(hand_ms(hd1).count(x) == hand_ms(hd2).count(x) + if x == disc {
            1int
        } else {
            0int
        });
    }
    assert(match_seq(m2).to_multiset() =~= match_seq(m1).to_multiset());
}

/// Applying a valid call adds exactly the claimed instance to a hand's
/// multiset.
#[verifier::rlimit(100)]
proof fn lemma_called_ms(h1: HandState, h2: HandState, disc: TileInstance, c0: Call)
    requires
        hand_called(h1, h2, disc, c0),
        call_valid(h1.tiles@, disc.tile, c0),
        tiles_distinct(h1.tiles@),
    ensures
        forall|x: TileInstance| #[trigger] hand_ms(h2).count(x) == hand_ms(h1).count(x) + (if x
            == disc {
            1int
        } else {
            0int
        }),
{
    broadcast use vstd::seq_lib::group_to_multiset_ensures;
    broadcast use vstd::multiset::group_multiset_axioms;
    broadcast use vstd::seq_lib::lemma_multiset_commutative;

    let s = h1.tiles@;
    match c0 {
        Call::Ron => {
            assert forall|x: TileInstance| true implies #[trigger] hand_ms(h2).count(x)
                == hand_ms(h1).count(x) + (if x == disc {
                1int
            } else {
                0int
            }) by {}
        },
        Call::Pon(a, b) => {
            lemma_two_id_removal(s, a, b);
            let xa = s[id_index(s, a)];
            let xb = s[id_index(s, b)];
            let meld = crate::hand::pon_meld(s, disc, a, b);
            assert(h2.open_pongs@.drop_last() =~= h1.open_pongs@);
            assert(h2.open_pongs@.last() == meld);
            assert(crate::hand::melds3_seq(h2.open_pongs@) =~= crate::hand::melds3_seq(
                h1.open_pongs@,
            ) + crate::hand::meld3_seq(meld));
            assert forall|x: TileInstance| true implies #[trigger] hand_ms(h2).count(x)
                == hand_ms(h1).count(x) + (if x == disc {
                1int
            } else {
                0int
            }) by {
                assert(crate::hand::melds3_seq(h2.open_pongs@).to_multiset().count(x)
                    == crate::hand::melds3_seq(h1.open_pongs@).to_multiset().count(x)
                    + crate::hand::meld3_seq(meld).to_multiset().count(x));
                assert(crate::hand::meld3_seq(meld).to_multiset().count(x) == (if x == disc {
                    1int
                } else {
                    0int
                }) + (if x == xa {
                    1int
                } else {
                    0int
                }) + (if x == xb {
                    1int
                } else {
                    0int
                })) by {
                    assert(crate::hand::meld3_seq(meld) =~= Seq::empty().push(disc).push(xa).push(
                        xb,
                    ));
                }
            }
        },
        Call::Chii(a, b) => {
            assert(a != b) by {
                if a == b {
                    assert(crate::hand::tile_of_in(s, a) == crate::hand::tile_of_in(s, b));
                }
            }
            lemma_two_id_removal(s, a, b);
            let xa = s[id_index(s, a)];
            let xb = s[id_index(s, b)];
            let meld = crate::hand::chii_meld(s, disc, a, b);
            assert(h2.open_chows@.drop_last() =~= h1.open_chows@);
            assert(h2.open_chows@.last() == meld);
            assert(crate::hand::melds3_seq(h2.open_chows@) =~= crate::hand::melds3_seq(
                h1.open_chows@,
            ) + crate::hand::meld3_seq(meld));
            assert forall|x: TileInstance| true implies #[trigger] hand_ms(h2).count(x)
                == hand_ms(h1).count(x) + (if x == disc {
                1int
            } else {
                0int
            }) by {
                assert(crate::hand::melds3_seq(h2.open_chows@).to_multiset().count(x)
                    == crate::hand::melds3_seq(h1.open_chows@).to_multiset().count(x)
                    + crate::hand::meld3_seq(meld).to_multiset().count(x));
                assert(crate::hand::meld3_seq(meld).to_multiset().count(x) == (if x == disc {
                    1int
                } else {
                    0int
                }) + (if x == xa {
                    1int
                } else {
                    0int
                }) + (if x == xb {
                    1int
                } else {
                    0int
                })) by {
                    assert(crate::hand::meld3_seq(meld) =~= Seq::empty().push(disc).push(xa).push(
                        xb,
                    ));
                }
            }
        },
        Call::Kan(t) => {
            crate::hand::lemma_three_match_positions(s, t);
            let f1 = crate::hand::value_index(s, t);
            let f2 = crate::hand::second_value_index(s, t);
            let f3 = crate::hand::third_value_index(s, t);
            let q = crate::hand::sort3_by_id(s[f1], s[f2], s[f3]);
            let meld = crate::hand::kan_meld(s, disc);
            assert(h2.open_kongs@.drop_last() =~= h1.open_kongs@);
            assert(h2.open_kongs@.last() == meld);
            assert(crate::hand::melds4_seq(h2.open_kongs@) =~= crate::hand::melds4_seq(
                h1.open_kongs@,
            ) + crate::hand::meld4_seq(meld));
            // The hand's instances never repeat, so each tile appears at
            // most once and the three matching copies are exactly the trio.
            assert(s.no_duplicates()) by {
                assert forall|k1: int, k2: int| 0 <= k1 < k2 < s.len() implies s[k1] != s[k2] by {
                    assert(ids_of(s)[k1] == s[k1].id);
                    assert(ids_of(s)[k2] == s[k2].id);
                }
            }
            s.lemma_multiset_has_no_duplicates();
            assert forall|x: TileInstance| true implies #[trigger] hand_ms(h2).count(x)
                == hand_ms(h1).count(x) + (if x == disc {
                1int
            } else {
                0int
            }) by {
                crate::hand::lemma_filter_value_count(s, t, x);
                assert(crate::hand::melds4_seq(h2.open_kongs@).to_multiset().count(x)
                    == crate::hand::melds4_seq(h1.open_kongs@).to_multiset().count(x)
                    + crate::hand::meld4_seq(meld).to_multiset().count(x));
                assert(crate::hand::meld4_seq(meld).to_multiset().count(x) == (if x == disc {
                    1int
                } else {
                    0int
                }) + (if x == q.0 {
                    1int
                } else {
                    0int
                }) + (if x == q.1 {
                    1int
                } else {
                    0int
                }) + (if x == q.2 {
                    1int
                } else {
                    0int
                })) by {
                    assert(crate::hand::meld4_seq(meld) =~= Seq::empty().push(disc).push(
                        q.0,
                    ).push(q.1).push(q.2));
                }
                if x.tile == t {
                    // A matching instance sits at one of the three claimed
                    // positions exactly when the hand holds it.
                    if s.to_multiset().count(x) > 0 {
                        assert(s.contains(x));
                        let k = choose|k: int| 0 <= k < s.len() && s[k] == x;
                        assert(k == f1 || k == f2 || k == f3);
                        assert(s.to_multiset().count(x) == 1);
                        assert(x == q.0 || x == q.1 || x == q.2);
                        assert(q.0 != q.1 && q.0 != q.2 && q.1 != q.2) by {
                            assert(ids_of(s)[f1] == s[f1].id);
                            assert(ids_of(s)[f2] == s[f2].id);
                            assert(ids_of(s)[f3] == s[f3].id);
                        }
                    } else {
                        assert(!s.contains(x));
                        assert(x != q.0 && x != q.1 && x != q.2) by {
                            assert(s.contains(s[f1]));
                            assert(s.contains(s[f2]));
                            assert(s.contains(s[f3]));
                        }
                    }
                } else {
                    assert(x != q.0 && x != q.1 && x != q.2);
                }
            }
        },
    }
}

/// Removing two distinct ids removes exactly those two first instances
/// from the tile multiset.
proof fn lemma_two_id_removal(s: Seq<TileInstance>, a: TileId, b: TileId)
    requires
        contains_id(s, a),
        contains_id(s, b),
        a != b,
    ensures
        forall|x: TileInstance| #[trigger] crate::hand::remove_id(
            crate::hand::remove_id(s, a),
            b,
        ).to_multiset().count(x) == s.to_multiset().count(x) - (if x == s[id_index(s, a)] {
            1int
        } else {
            0int
        }) - (if x == s[id_index(s, b)] {
            1int
        } else {
            0int
        }),
        s.to_multiset().count(s[id_index(s, a)]) >= 1,
        s[id_index(s, a)] != s[id_index(s, b)],
        s.to_multiset().count(s[id_index(s, b)]) >= if s[id_index(s, b)] == s[id_index(s, a)] {
            2int
        } else {
            1int
        },
{
    broadcast use vstd::seq_lib::group_to_multiset_ensures;
    broadcast use vstd::multiset::group_multiset_axioms;

    crate::hand::lemma_id_index(s, a);
    crate::hand::lemma_id_index(s, b);
    crate::hand::lemma_remove_other_id(s, a, b);
    let r1 = crate::hand::remove_id(s, a);
    let ia = id_index(s, a);
    let ib1 = id_index(r1, b);
    crate::hand::lemma_id_index(r1, b);
    assert(r1.to_multiset() == s.to_multiset().remove(s[ia]));
    assert(crate::hand::remove_id(r1, b).to_multiset() == r1.to_multiset().remove(r1[ib1]));
    assert(r1[ib1] == s[id_index(s, b)]);
    assert(s[ia].id == a && s[id_index(s, b)].id == b);
    assert(s.contains(s[ia]));
    assert(s.contains(s[id_index(s, b)]));
}



/// Tile conservation, as a law: in a well-formed match every id of the
/// canonical tileset appears exactly once across the wall, the four hands
/// with their draws and melds, and the discard piles.
pub proof fn lemma_tile_conservation(m: MatchState)
    requires
        match_wf(m),
    ensures
        forall|id: int| 0 <= id < 136 ==> #[trigger] match_seq(m).to_multiset().count(
            instance_of_id(id),
        ) == 1,
{
    broadcast use vstd::seq_lib::group_to_multiset_ensures;

    let c = tile_set_seq();
    lemma_canonical_counts();
    assert forall|id: int| 0 <= id < 136 implies #[trigger] match_seq(m).to_multiset().count(
        instance_of_id(id),
    ) == 1 by {
        assert(c[id] == instance_of_id(id));
        assert(c.contains(instance_of_id(id)));
        assert(c.to_multiset().count(instance_of_id(id)) >= 1);
        assert(match_seq(m).to_multiset().count(instance_of_id(id)) == c.to_multiset().count(
            instance_of_id(id),
        ));
    }
}

/// Turn well-formedness, as a law: a seat asked to discard holds its
/// draw, and while a seat is to draw nobody holds one.
pub proof fn lemma_turn_well_formed(m: MatchState)
    requires
        match_wf(m),
    ensures
        m.turn_state matches TurnState::AwaitingDiscard(p) ==> m.players.at(p).current_draw
            is Some,
        m.turn_state is AwaitingDraw ==> forall|q: Wind| #[trigger] m.players.at(q).current_draw
            is None,
{
}



/// Every wall tile of a conserving match is canonical.
pub proof fn lemma_wall_instances(m: MatchState)
    requires
        conserves_tiles(m),
    ensures
        forall|k: int| 0 <= k < m.wall@.len() ==> instance_ok(#[trigger] m.wall@[k]),
{
    broadcast use vstd::multiset::group_multiset_axioms;
    broadcast use vstd::seq_lib::group_to_multiset_ensures;

    lemma_canonical_counts();
    lemma_seat_counts(m);
    lemma_hand_component_counts(m.players.at(Wind::East));
    lemma_hand_component_counts(m.players.at(Wind::South));
    lemma_hand_component_counts(m.players.at(Wind::West));
    lemma_hand_component_counts(m.players.at(Wind::North));
    let canon = tile_set_seq().to_multiset();
    assert forall|x: TileInstance| #[trigger] m.wall@.to_multiset().count(x) <= canon.count(
        x,
    ) by {
        assert(match_seq(m).to_multiset().count(x) == canon.count(x));
    }
    lemma_part_facts(m.wall@, canon);
}

/// A held draw of a conserving match is canonical.
pub proof fn lemma_draw_instance(m: MatchState, q: Wind)
    requires
        conserves_tiles(m),
        m.players.at(q).current_draw is Some,
    ensures
        instance_ok(m.players.at(q).current_draw->Some_0),
{
    broadcast use vstd::multiset::group_multiset_axioms;
    broadcast use vstd::seq_lib::group_to_multiset_ensures;

    lemma_canonical_counts();
    lemma_seat_counts(m);
    let canon = tile_set_seq().to_multiset();
    let dr = m.players.at(q).current_draw->Some_0;
    assert(crate::hand::opt_seq(m.players.at(q).current_draw) =~= Seq::empty().push(dr));
    assert(opt_ms(m.players.at(q).current_draw).count(dr) >= 1);
    assert(hand_ms(m.players.at(q)).count(dr) >= 1);
    assert(canon.count(dr) >= 1) by {
        assert(match_seq(m).to_multiset().count(dr) == canon.count(dr));
        match q {
            Wind::East => {},
            Wind::South => {},
            Wind::West => {},
            Wind::North => {},
        }
    }
}



/// The freshly discarded tile sits in the discarder's pile alone: no other
/// hand's concealed tiles carry its id.
pub proof fn lemma_disc_not_in_hand(m: MatchState, dp: Wind, q: Wind)
    requires
        conserves_tiles(m),
        q != dp,
        m.players.at(dp).discards@.len() > 0,
    ensures
        forall|k: int| 0 <= k < m.players.at(q).tiles@.len() ==> (#[trigger] m.players.at(
            q,
        ).tiles@[k]).id != m.players.at(dp).discards@.last().id,
{
    broadcast use vstd::multiset::group_multiset_axioms;
    broadcast use vstd::seq_lib::group_to_multiset_ensures;

    lemma_canonical_counts();
    lemma_seat_counts(m);
    lemma_hand_component_counts(m.players.at(Wind::East));
    lemma_hand_component_counts(m.players.at(Wind::South));
    lemma_hand_component_counts(m.players.at(Wind::West));
    lemma_hand_component_counts(m.players.at(Wind::North));
    lemma_hand_tiles_facts(m, q);
    let canon = tile_set_seq().to_multiset();
    let d = m.players.at(dp).discards@.last();
    assert(m.players.at(dp).discards@.contains(d));
    assert(m.players.at(dp).discards@.to_multiset().count(d) >= 1);
    assert(canon.count(d) >= 1) by {
        assert(match_seq(m).to_multiset().count(d) == canon.count(d));
        match dp {
            Wind::East => {},
            Wind::South => {},
            Wind::West => {},
            Wind::North => {},
        }
    }
    assert(instance_ok(d));
    let s = m.players.at(q).tiles@;
    assert forall|k: int| 0 <= k < s.len() implies (#[trigger] s[k]).id != d.id by {
        if s[k].id == d.id {
            assert(instance_ok(s[k]));
            assert(s[k] == d);
            assert(s.contains(s[k]));
            assert(s.to_multiset().count(d) >= 1);
            assert(s.to_multiset().count(d) + m.players.at(dp).discards@.to_multiset().count(d)
                <= canon.count(d)) by {
                assert(s.to_multiset().count(d) <= m.players.at(q).tiles@.to_multiset().count(d));
                assert(match_seq(m).to_multiset().count(d) == canon.count(d));
            }
            assert(false);
        }
    }
}

/// The open kong built from the hand's three matching copies is the very
/// kong a remote view reconstructs from the canonical quadruple.
#[verifier::rlimit(100)]
pub proof fn lemma_kan_melds_agree(s: Seq<TileInstance>, disc: TileInstance, t: Tile)
    requires
        count_value(s, t) == 3,
        tiles_distinct(s),
        forall|k: int| 0 <= k < s.len() ==> instance_ok(#[trigger] s[k]),
        forall|k: int| 0 <= k < s.len() ==> (#[trigger] s[k]).id != disc.id,
        instance_ok(disc),
        disc.tile == t,
    ensures
        crate::hand::kan_meld(s, disc) == crate::client::kong_meld_of(
            crate::tile::all_instances_spec(t),
            disc,
        ),
{
    crate::hand::lemma_three_match_positions(s, t);
    let f1 = crate::hand::value_index(s, t);
    let f2 = crate::hand::second_value_index(s, t);
    let f3 = crate::hand::third_value_index(s, t);
    crate::tile::lemma_id_value_valid(disc.id.0 as int);
    let base = crate::tile::index_of_value(t) * 4;
    assert(disc.id.0 as int / 4 == crate::tile::index_of_value(t));
    assert(base <= disc.id.0 < base + 4);
    assert forall|k: int| 0 <= k < s.len() && (#[trigger] s[k]).tile == t implies base <= s[k].id.0
        < base + 4 by {
        crate::tile::lemma_id_value_valid(s[k].id.0 as int);
    }
    assert(ids_of(s)[f1] == s[f1].id);
    assert(ids_of(s)[f2] == s[f2].id);
    assert(ids_of(s)[f3] == s[f3].id);
    assert(s[f1].id != s[f2].id && s[f1].id != s[f3].id && s[f2].id != s[f3].id);
    assert(s[f1] == instance_of_id(s[f1].id.0 as int));
    assert(s[f2] == instance_of_id(s[f2].id.0 as int));
    assert(s[f3] == instance_of_id(s[f3].id.0 as int));
}


} // verus!

//! A player's hand during a match, and the call-matching rules.

use crate::tile::{
    is_chow, is_chow_spec, tile_key, Meld3, Meld4, Tile, TileId, TileInstance,
    Wind, wind_distance,
};
use core::cmp::Ordering;
use crate::tile::{lemma_tile_key_injective, tile_key_exec};
use vstd::prelude::*;
use vstd::multiset::Multiset;
use vstd::relations::{reflexive, sorted_by, strongly_connected, total_ordering, transitive};

verus! {

/// Representation of a player's hand during a match.
///
/// A hand tracks the concealed tiles, the tile just drawn (if any), the open
/// melds and closed kongs, and the discard pile. Between atomic operations a
/// well-formed hand keeps its concealed-tile budget: the concealed tiles plus
/// the tiles it contributed to melds always account for thirteen tiles, the
/// current draw aside.
#[derive(Debug)]
pub struct HandState {
    /// "Active" tiles in the player's hand, i.e. ones that can still be
    /// discarded.
    pub tiles: Vec<TileInstance>,
    pub current_draw: Option<TileInstance>,
    /// "Inactive" tiles: open melds and closed kongs cannot be discarded.
    pub open_chows: Vec<Meld3>,
    pub open_pongs: Vec<Meld3>,
    pub open_kongs: Vec<Meld4>,
    pub closed_kongs: Vec<Meld4>,
    /// The player's discard pile.
    pub discards: Vec<TileInstance>,
}

/// A possible call when another player discards a tile.
///
/// When several players call the same discard, precedence between the calls
/// is decided by [`compare_calls`].
#[derive(Debug, Clone, Copy, PartialEq, Eq, PartialOrd, Ord, Hash, Structural)]
pub enum Call {
    /// A "chii" call, making a chow meld (three tiles in a sequence).
    /// Carries the two hand tiles completing the sequence.
    Chii(TileId, TileId),
    /// A "pon" call, making a pong meld (three of a kind).
    /// Carries the two hand tiles completing the pong.
    Pon(TileId, TileId),
    /// A "kan" call, making an open kong (four of a kind) from the three
    /// remaining copies in hand. Carries the tile value for validation.
    Kan(Tile),
    /// A call for a player's winning tile.
    Ron,
}

/// The starting hand held the wrong number of tiles.
#[derive(Debug, Clone, Copy, PartialEq, Eq, Hash, Structural)]
pub struct WrongNumberOfTiles(pub usize);

/// The player already has a drawn tile and must discard before drawing
/// again. Carries the tile that could not be drawn.
#[derive(Debug, Clone, Copy, PartialEq, Eq, Hash, Structural)]
pub struct DrawError(pub TileInstance);

/// Why a discard was rejected.
#[derive(Debug, Clone, Copy, PartialEq, Eq, Hash, Structural)]
pub enum DiscardError {
    /// The player doesn't have a current draw.
    NoDraw,
    /// The tile is not in the player's hand, or sits in an open meld and so
    /// cannot be discarded.
    NotInHand,
}

/// Why applying a call to a hand was rejected. A failed call leaves the hand
/// unchanged.
#[derive(Debug, Clone, Copy, PartialEq, Eq, Hash, Structural)]
pub enum CallInvalid {
    /// A tile id named by the call is not in the hand.
    MissingTile(TileId),
    /// A "kan" call needs exactly three matching copies in hand.
    WrongMatchCount,
    /// The two tiles named by a "chii" call do not complete a chow.
    NotAChow,
}

// ---------------------------------------------------------------------------
// Spec-level views of a hand.
// ---------------------------------------------------------------------------

pub open spec fn opt_seq(o: Option<TileInstance>) -> Seq<TileInstance> {
    match o {
        Some(t) => seq![t],
        None => Seq::empty(),
    }
}

pub open spec fn meld3_seq(m: Meld3) -> Seq<TileInstance> {
    seq![m.0, m.1, m.2]
}

pub open spec fn meld4_seq(m: Meld4) -> Seq<TileInstance> {
    seq![m.0, m.1, m.2, m.3]
}

pub open spec fn melds3_seq(s: Seq<Meld3>) -> Seq<TileInstance>
    decreases s.len(),
{
    if s.len() == 0 {
        Seq::empty()
    } else {
        melds3_seq(s.drop_last()) + meld3_seq(s.last())
    }
}

pub open spec fn melds4_seq(s: Seq<Meld4>) -> Seq<TileInstance>
    decreases s.len(),
{
    if s.len() == 0 {
        Seq::empty()
    } else {
        melds4_seq(s.drop_last()) + meld4_seq(s.last())
    }
}

/// Every tile instance a hand accounts for: concealed tiles, the current
/// draw, melds, closed kongs, and the discard pile.
pub open spec fn hand_all(h: HandState) -> Seq<TileInstance> {
    h.tiles@ + opt_seq(h.current_draw) + melds3_seq(h.open_chows@) + melds3_seq(h.open_pongs@)
        + melds4_seq(h.open_kongs@) + melds4_seq(h.closed_kongs@) + h.discards@
}

/// The number of tiles this hand owns for its concealed budget: concealed
/// tiles count one each; an open chow or pong contributed two own tiles, an
/// open kong three, and a closed kong four (the remaining meld tile was
/// claimed from another player's discard).
pub open spec fn concealed_budget(h: HandState) -> int {
    h.tiles@.len() + 2 * h.open_chows@.len() + 2 * h.open_pongs@.len() + 3 * h.open_kongs@.len()
        + 4 * h.closed_kongs@.len() as int
}

/// Budget invariant: between atomic operations a hand owns exactly thirteen
/// tiles, the current draw aside.
pub open spec fn hand_budget_ok(h: HandState) -> bool {
    concealed_budget(h) == 13
}

// ---------------------------------------------------------------------------
// First-index helpers over tile sequences.
// ---------------------------------------------------------------------------

/// Index of the first instance carrying `id`, or -1 when absent.
pub open spec fn id_index(s: Seq<TileInstance>, id: TileId) -> int
    decreases s.len(),
{
    if s.len() == 0 {
        -1
    } else if s[0].id == id {
        0
    } else {
        let r = id_index(s.drop_first(), id);
        if r == -1 {
            -1
        } else {
            r + 1
        }
    }
}

pub open spec fn contains_id(s: Seq<TileInstance>, id: TileId) -> bool {
    id_index(s, id) >= 0
}

/// The sequence with the first instance carrying `id` removed.
pub open spec fn remove_id(s: Seq<TileInstance>, id: TileId) -> Seq<TileInstance> {
    s.remove(id_index(s, id))
}

pub proof fn lemma_id_index(s: Seq<TileInstance>, id: TileId)
    ensures
        -1 <= id_index(s, id) < s.len(),
        id_index(s, id) >= 0 ==> s[id_index(s, id)].id == id,
        forall|k: int| 0 <= k < id_index(s, id) ==> (#[trigger] s[k]).id != id,
        id_index(s, id) == -1 ==> forall|k: int| 0 <= k < s.len() ==> (#[trigger] s[k]).id != id,
    decreases s.len(),
{
    if s.len() > 0 && s[0].id != id {
        lemma_id_index(s.drop_first(), id);
        let f = id_index(s, id);
        let fd = id_index(s.drop_first(), id);
        assert forall|k: int| 0 <= k < f implies (#[trigger] s[k]).id != id by {
            if k > 0 {
                assert(s.drop_first()[k - 1] == s[k]);
            }
        }
        if f == -1 {
            assert forall|k: int| 0 <= k < s.len() implies (#[trigger] s[k]).id != id by {
                if k > 0 {
                    assert(s.drop_first()[k - 1] == s[k]);
                }
            }
        }
        if f >= 0 {
            assert(s[f] == s.drop_first()[fd]);
        }
    }
}

/// The first index where the scan below stops is exactly `id_index`.
pub proof fn lemma_id_index_is(s: Seq<TileInstance>, id: TileId, i: int)
    requires
        0 <= i < s.len(),
        s[i].id == id,
        forall|k: int| 0 <= k < i ==> (#[trigger] s[k]).id != id,
    ensures
        id_index(s, id) == i,
    decreases s.len(),
{
    if i > 0 {
        assert forall|k: int| 0 <= k < i - 1 implies (#[trigger] s.drop_first()[k]).id != id by {
            assert(s.drop_first()[k] == s[k + 1]);
        }
        assert(s.drop_first()[i - 1] == s[i]);
        lemma_id_index_is(s.drop_first(), id, i - 1);
    }
}

/// Index of the first instance whose tile value is `v`, or -1 when absent.
pub open spec fn value_index(s: Seq<TileInstance>, v: Tile) -> int
    decreases s.len(),
{
    if s.len() == 0 {
        -1
    } else if s[0].tile == v {
        0
    } else {
        let r = value_index(s.drop_first(), v);
        if r == -1 {
            -1
        } else {
            r + 1
        }
    }
}

pub proof fn lemma_value_index(s: Seq<TileInstance>, v: Tile)
    ensures
        -1 <= value_index(s, v) < s.len(),
        value_index(s, v) >= 0 ==> s[value_index(s, v)].tile == v,
        forall|k: int| 0 <= k < value_index(s, v) ==> (#[trigger] s[k]).tile != v,
        value_index(s, v) == -1 ==> forall|k: int|
            0 <= k < s.len() ==> (#[trigger] s[k]).tile != v,
    decreases s.len(),
{
    if s.len() > 0 && s[0].tile != v {
        lemma_value_index(s.drop_first(), v);
        let f = value_index(s, v);
        let fd = value_index(s.drop_first(), v);
        assert forall|k: int| 0 <= k < f implies (#[trigger] s[k]).tile != v by {
            if k > 0 {
                assert(s.drop_first()[k - 1] == s[k]);
            }
        }
        if f == -1 {
            assert forall|k: int| 0 <= k < s.len() implies (#[trigger] s[k]).tile != v by {
                if k > 0 {
                    assert(s.drop_first()[k - 1] == s[k]);
                }
            }
        }
        if f >= 0 {
            assert(s[f] == s.drop_first()[fd]);
        }
    }
}

pub proof fn lemma_value_index_is(s: Seq<TileInstance>, v: Tile, i: int)
    requires
        0 <= i < s.len(),
        s[i].tile == v,
        forall|k: int| 0 <= k < i ==> (#[trigger] s[k]).tile != v,
    ensures
        value_index(s, v) == i,
    decreases s.len(),
{
    if i > 0 {
        assert forall|k: int| 0 <= k < i - 1 implies (#[trigger] s.drop_first()[k]).tile != v by {
            assert(s.drop_first()[k] == s[k + 1]);
        }
        assert(s.drop_first()[i - 1] == s[i]);
        lemma_value_index_is(s.drop_first(), v, i - 1);
    }
}

/// How many instances in `s` carry the tile value `v`.
pub open spec fn count_value(s: Seq<TileInstance>, v: Tile) -> int
    decreases s.len(),
{
    if s.len() == 0 {
        0
    } else {
        count_value(s.drop_last(), v) + if s.last().tile == v {
            1int
        } else {
            0int
        }
    }
}

/// Counting matches never exceeds the sequence length.
pub proof fn lemma_count_le_len(s: Seq<TileInstance>, v: Tile)
    ensures
        count_value(s, v) <= s.len(),
    decreases s.len(),
{
    if s.len() > 0 {
        lemma_count_le_len(s.drop_last(), v);
    }
}

/// Counting matches never goes negative.
pub proof fn lemma_count_nonneg(s: Seq<TileInstance>, v: Tile)
    ensures
        count_value(s, v) >= 0,
    decreases s.len(),
{
    if s.len() > 0 {
        lemma_count_nonneg(s.drop_last(), v);
    }
}

/// Counting matches distributes over concatenation.
pub proof fn lemma_count_concat(a: Seq<TileInstance>, b: Seq<TileInstance>, v: Tile)
    ensures
        count_value(a + b, v) == count_value(a, v) + count_value(b, v),
    decreases b.len(),
{
    if b.len() == 0 {
        assert(a + b =~= a);
    } else {
        lemma_count_concat(a, b.drop_last(), v);
        assert((a + b).drop_last() =~= a + b.drop_last());
        assert((a + b).last() == b.last());
    }
}

/// A count of zero means no element matches.
pub proof fn lemma_count_zero(s: Seq<TileInstance>, v: Tile)
    requires
        count_value(s, v) == 0,
    ensures
        forall|k: int| 0 <= k < s.len() ==> (#[trigger] s[k]).tile != v,
    decreases s.len(),
{
    if s.len() > 0 {
        lemma_count_nonneg(s.drop_last(), v);
        lemma_count_zero(s.drop_last(), v);
        assert forall|k: int| 0 <= k < s.len() implies (#[trigger] s[k]).tile != v by {
            if k < s.len() - 1 {
                assert(s.drop_last()[k] == s[k]);
            }
        }
    }
}

/// With exactly three matching copies, the three claimed positions are the
/// matching positions and nothing else matches.
pub proof fn lemma_three_match_positions(s: Seq<TileInstance>, v: Tile)
    requires
        count_value(s, v) == 3,
    ensures
        0 <= value_index(s, v) < second_value_index(s, v) < third_value_index(s, v) < s.len(),
        s[value_index(s, v)].tile == v,
        s[second_value_index(s, v)].tile == v,
        s[third_value_index(s, v)].tile == v,
        forall|k: int|
            0 <= k < s.len() && k != value_index(s, v) && k != second_value_index(s, v) && k
                != third_value_index(s, v) ==> (#[trigger] s[k]).tile != v,
{
    lemma_two_match_positions(s, v);
    let f1 = value_index(s, v);
    let f2 = second_value_index(s, v);
    lemma_value_index(s, v);
    let rest1 = s.skip(f1 + 1);
    lemma_value_index(rest1, v);
    let rest2 = s.skip(f2 + 1);
    lemma_value_index(rest2, v);
    let g = value_index(rest2, v);
    if g == -1 {
        // Only two positions would match, contradicting the count.
        assert forall|k: int| 0 <= k < s.len() && k != f1 && k != f2 implies (#[trigger] s[k]).tile
            != v by {
            if k < f1 {
            } else if k < f2 {
                assert(rest1[k - f1 - 1] == s[k]);
            } else {
                assert(rest2[k - f2 - 1] == s[k]);
            }
        }
        lemma_count_two_only(s, v, f1, f2);
        assert(false);
    }
    let f3 = third_value_index(s, v);
    assert(rest2[g] == s[f3]);
    assert forall|k: int| 0 <= k < s.len() && k != f1 && k != f2 && k != f3 implies (
    #[trigger] s[k]).tile != v by {
        if k < f1 {
        } else if k < f2 {
            assert(rest1[k - f1 - 1] == s[k]);
        } else if k < f3 {
            assert(rest2[k - f2 - 1] == s[k]);
        } else if k > f3 {
            let rest3 = s.skip(f3 + 1);
            if s[k].tile == v {
                assert(rest3[k - f3 - 1] == s[k]);
                assert(rest3.contains(rest3[k - f3 - 1]));
                lemma_count_nonneg(rest3, v);
                lemma_count_positive(rest3, v, k - f3 - 1);
                lemma_count_four(s, v, f1, f2, f3);
                assert(false);
            }
        }
    }
}

/// A sequence with a matching element counts at least one.
proof fn lemma_count_positive(s: Seq<TileInstance>, v: Tile, k: int)
    requires
        0 <= k < s.len(),
        s[k].tile == v,
    ensures
        count_value(s, v) >= 1,
    decreases s.len(),
{
    lemma_count_nonneg(s.drop_last(), v);
    if k < s.len() - 1 {
        lemma_count_positive(s.drop_last(), v, k);
    }
}

/// A sequence whose only matches sit at `f1 < f2` counts two.
proof fn lemma_count_two_only(s: Seq<TileInstance>, v: Tile, f1: int, f2: int)
    requires
        0 <= f1 < f2 < s.len(),
        s[f1].tile == v,
        s[f2].tile == v,
        forall|k: int| 0 <= k < s.len() && k != f1 && k != f2 ==> (#[trigger] s[k]).tile != v,
    ensures
        count_value(s, v) == 2,
    decreases s.len(),
{
    if f2 == s.len() - 1 {
        lemma_count_single(s.drop_last(), v, f1);
    } else {
        lemma_count_two_only(s.drop_last(), v, f1, f2);
    }
}

/// Three matching positions with a fourth matching element make the count
/// at least `3 + count` of the tail beyond the third.
proof fn lemma_count_four(s: Seq<TileInstance>, v: Tile, f1: int, f2: int, f3: int)
    requires
        0 <= f1 < f2 < f3 < s.len(),
        s[f1].tile == v,
        s[f2].tile == v,
        s[f3].tile == v,
    ensures
        count_value(s, v) >= 3 + count_value(s.skip(f3 + 1), v),
{
    let front = s.take(f3 + 1);
    let back = s.skip(f3 + 1);
    assert(s =~= front + back);
    lemma_count_concat(front, back, v);
    lemma_count_positive(front.take(f1 + 1), v, f1);
    lemma_count_chain(front, v, f1, f2, f3);
}

/// A prefix holding three distinct matching positions counts at least 3.
proof fn lemma_count_chain(s: Seq<TileInstance>, v: Tile, f1: int, f2: int, f3: int)
    requires
        0 <= f1 < f2 < f3 < s.len(),
        s[f1].tile == v,
        s[f2].tile == v,
        s[f3].tile == v,
    ensures
        count_value(s, v) >= 3,
    decreases s.len(),
{
    if f3 == s.len() - 1 {
        lemma_count_nonneg(s.drop_last(), v);
        lemma_count_pair_min(s.drop_last(), v, f1, f2);
    } else {
        lemma_count_chain(s.drop_last(), v, f1, f2, f3);
    }
}

/// A prefix holding two distinct matching positions counts at least 2.
proof fn lemma_count_pair_min(s: Seq<TileInstance>, v: Tile, f1: int, f2: int)
    requires
        0 <= f1 < f2 < s.len(),
        s[f1].tile == v,
        s[f2].tile == v,
    ensures
        count_value(s, v) >= 2,
    decreases s.len(),
{
    if f2 == s.len() - 1 {
        lemma_count_positive(s.drop_last(), v, f1);
    } else {
        lemma_count_pair_min(s.drop_last(), v, f1, f2);
    }
}

/// How often an instance appears among the kept matches of a filter by
/// value.
pub proof fn lemma_filter_value_count(s: Seq<TileInstance>, v: Tile, x: TileInstance)
    ensures
        x.tile != v ==> s.filter(|t: TileInstance| t.tile != v).to_multiset().count(x) == s
            .to_multiset().count(x),
        x.tile == v ==> s.filter(|t: TileInstance| t.tile != v).to_multiset().count(x) == 0,
    decreases s.len(),
{
    broadcast use vstd::seq_lib::group_to_multiset_ensures;

    reveal_with_fuel(Seq::filter, 2);
    if s.len() == 0 {
        assert(s.to_multiset() =~= Multiset::<TileInstance>::empty());
        assert(s.filter(|t: TileInstance| t.tile != v) =~= Seq::<TileInstance>::empty());
        assert(s.filter(|t: TileInstance| t.tile != v).to_multiset()
            =~= Multiset::<TileInstance>::empty());
    } else {
        lemma_filter_value_count(s.drop_last(), v, x);
        assert(s =~= s.drop_last().push(s.last()));
        assert(s.to_multiset().count(x) == s.drop_last().to_multiset().count(x) + if x == s.last() {
            1int
        } else {
            0int
        });
        if s.last().tile != v {
            assert(s.filter(|t: TileInstance| t.tile != v) == s.drop_last().filter(
                |t: TileInstance| t.tile != v,
            ).push(s.last()));
        }
    }
}

/// Counting over a prefix never exceeds the count over the whole sequence.
pub proof fn lemma_count_value_prefix(s: Seq<TileInstance>, v: Tile, k: int)
    requires
        0 <= k <= s.len(),
    ensures
        count_value(s.take(k), v) <= count_value(s, v),
    decreases s.len() - k,
{
    if k == s.len() {
        assert(s.take(k) =~= s);
    } else {
        lemma_count_value_prefix(s, v, k + 1);
        assert(s.take(k + 1).drop_last() =~= s.take(k));
        assert(s.take(k + 1).last() == s[k]);
    }
}

/// Ids of a sequence of instances.
pub open spec fn ids_of(s: Seq<TileInstance>) -> Seq<TileId> {
    s.map_values(|t: TileInstance| t.id)
}

/// No two instances share an id.
pub open spec fn tiles_distinct(s: Seq<TileInstance>) -> bool {
    ids_of(s).no_duplicates()
}

// ---------------------------------------------------------------------------
// Hand operations.
// ---------------------------------------------------------------------------

impl HandState {
    /// Creates a new hand by drawing the starting tiles from the tail of
    /// `draw_from`.
    pub fn new(draw_from: &mut Vec<TileInstance>) -> (r: Self)
        requires
            old(draw_from)@.len() >= 13,
        ensures
            final(draw_from)@ == old(draw_from)@.subrange(0, old(draw_from)@.len() - 13),
            r.tiles@ == old(draw_from)@.subrange(
                old(draw_from)@.len() - 13,
                old(draw_from)@.len() as int,
            ),
            r.current_draw is None,
            r.open_chows@.len() == 0,
            r.open_pongs@.len() == 0,
            r.open_kongs@.len() == 0,
            r.closed_kongs@.len() == 0,
            r.discards@.len() == 0,
    {
        let at = draw_from.len() - 13;
        let tiles = draw_from.split_off(at);
        HandState {
            tiles,
            current_draw: None,
            open_chows: Vec::new(),
            open_pongs: Vec::new(),
            open_kongs: Vec::new(),
            closed_kongs: Vec::new(),
            discards: Vec::new(),
        }
    }

    /// Sets `tile` as the hand's current draw; rejected when the hand
    /// already holds a draw.
    pub fn draw_tile(&mut self, tile: TileInstance) -> (r: Result<(), DrawError>)
        ensures
            old(self).current_draw is Some ==> r == Err::<(), DrawError>(DrawError(tile))
                && *final(self) == *old(self),
            old(self).current_draw is None ==> r is Ok && *final(self) == (HandState {
                current_draw: Some(tile),
                ..*old(self)
            }),
    {
        if self.current_draw.is_some() {
            return Err(DrawError(tile));
        }
        self.current_draw = Some(tile);
        Ok(())
    }

    /// Discards the tile carrying `id`.
    ///
    /// The tile moves to the discard pile; it is taken from the concealed
    /// tiles first, or from the current draw when `id` names the draw. A
    /// current draw that was not discarded merges into the concealed tiles.
    pub fn discard_tile(&mut self, id: TileId) -> (r: Result<(), DiscardError>)
        ensures
            old(self).current_draw is None ==> r == Err::<(), DiscardError>(DiscardError::NoDraw)
                && *final(self) == *old(self),
            old(self).current_draw matches Some(draw) ==> {
                if contains_id(old(self).tiles@, id) {
                    &&& r is Ok
                    &&& final(self).tiles@ == remove_id(old(self).tiles@, id).push(draw)
                    &&& final(self).discards@ == old(self).discards@.push(
                        old(self).tiles@[id_index(old(self).tiles@, id)],
                    )
                    &&& final(self).current_draw is None
                    &&& unchanged_melds(*old(self), *final(self))
                } else if draw.id == id {
                    &&& r is Ok
                    &&& final(self).tiles@ == old(self).tiles@
                    &&& final(self).discards@ == old(self).discards@.push(draw)
                    &&& final(self).current_draw is None
                    &&& unchanged_melds(*old(self), *final(self))
                } else {
                    r == Err::<(), DiscardError>(DiscardError::NotInHand) && *final(self) == *old(
                        self,
                    )
                }
            },
    {
        let draw = match self.current_draw {
            Some(draw) => draw,
            None => {
                return Err(DiscardError::NoDraw);
            },
        };
        match find_id(&self.tiles, id) {
            Some(at) => {
                proof {
                    lemma_id_index(self.tiles@, id);
                }
                let tile = self.tiles.remove(at);
                self.discards.push(tile);
                self.tiles.push(draw);
                self.current_draw = None;
                Ok(())
            },
            None => {
                if draw.id.0 == id.0 {
                    proof {
                        assert(draw.id == id);
                    }
                    self.discards.push(draw);
                    self.current_draw = None;
                    Ok(())
                } else {
                    Err(DiscardError::NotInHand)
                }
            },
        }
    }

    /// Removes and returns the most recent discard; the controller uses this
    /// when another player calls the last discarded tile.
    pub fn call_last_discard(&mut self) -> (r: Option<TileInstance>)
        ensures
            old(self).discards@.len() == 0 ==> r is None && final(self).discards@ == old(
                self,
            ).discards@ && final(self).tiles@ == old(self).tiles@ && final(self).current_draw
                == old(self).current_draw && unchanged_melds(*old(self), *final(self)),
            old(self).discards@.len() > 0 ==> r == Some(old(self).discards@.last())
                && final(self).discards@ == old(self).discards@.drop_last() && final(self).tiles@
                == old(self).tiles@ && final(self).current_draw == old(self).current_draw
                && unchanged_melds(*old(self), *final(self)),
    {
        self.discards.pop()
    }

    pub fn tiles(&self) -> (r: &Vec<TileInstance>)
        ensures
            r@ == self.tiles@,
    {
        &self.tiles
    }

    pub fn current_draw(&self) -> (r: Option<&TileInstance>)
        ensures
            match r {
                Some(t) => self.current_draw == Some(*t),
                None => self.current_draw is None,
            },
    {
        self.current_draw.as_ref()
    }

    pub fn open_chows(&self) -> (r: &Vec<Meld3>)
        ensures
            r@ == self.open_chows@,
    {
        &self.open_chows
    }

    pub fn open_pongs(&self) -> (r: &Vec<Meld3>)
        ensures
            r@ == self.open_pongs@,
    {
        &self.open_pongs
    }

    pub fn open_kongs(&self) -> (r: &Vec<Meld4>)
        ensures
            r@ == self.open_kongs@,
    {
        &self.open_kongs
    }

    pub fn closed_kongs(&self) -> (r: &Vec<Meld4>)
        ensures
            r@ == self.closed_kongs@,
    {
        &self.closed_kongs
    }

    pub fn discards(&self) -> (r: &Vec<TileInstance>)
        ensures
            r@ == self.discards@,
    {
        &self.discards
    }

    /// Copy of the concealed tiles.
    pub fn get_tiles(&self) -> (r: Vec<TileInstance>)
        ensures
            r@ == self.tiles@,
    {
        copy_tiles(&self.tiles)
    }

    pub fn has_current_draw(&self) -> (r: bool)
        ensures
            r == (self.current_draw is Some),
    {
        self.current_draw.is_some()
    }

    /// The current draw; the hand must hold one.
    pub fn get_current_draw(&self) -> (r: TileInstance)
        requires
            self.current_draw is Some,
        ensures
            Some(r) == self.current_draw,
    {
        match self.current_draw {
            Some(t) => t,
            None => unreached(),
        }
    }
}

/// The meld lists of `b` are those of `a`, untouched.
pub open spec fn unchanged_melds(a: HandState, b: HandState) -> bool {
    &&& b.open_chows == a.open_chows
    &&& b.open_pongs == a.open_pongs
    &&& b.open_kongs == a.open_kongs
    &&& b.closed_kongs == a.closed_kongs
}

/// Position of the first instance carrying `id`, scanning front to back.
pub fn find_id(tiles: &Vec<TileInstance>, id: TileId) -> (r: Option<usize>)
    ensures
        match r {
            Some(at) => at == id_index(tiles@, id),
            None => !contains_id(tiles@, id),
        },
{
    let mut k: usize = 0;
    while k < tiles.len()
        invariant
            0 <= k <= tiles@.len(),
            forall|m: int| 0 <= m < k ==> (#[trigger] tiles@[m]).id != id,
        decreases tiles@.len() - k as int,
    {
        if tiles[k].id.0 == id.0 {
            proof {
                assert(tiles@[k as int].id == id);
                lemma_id_index_is(tiles@, id, k as int);
            }
            return Some(k);
        }
        proof {
            assert(tiles@[k as int].id != id);
        }
        k = k + 1;
    }
    proof {
        lemma_id_index(tiles@, id);
    }
    None
}

/// Element-for-element copy of a tile vector.
pub fn copy_tiles(v: &Vec<TileInstance>) -> (r: Vec<TileInstance>)
    ensures
        r@ == v@,
{
    let mut r: Vec<TileInstance> = Vec::new();
    let mut k: usize = 0;
    while k < v.len()
        invariant
            0 <= k <= v@.len(),
            r@ == v@.subrange(0, k as int),
        decreases v@.len() - k as int,
    {
        r.push(v[k]);
        k = k + 1;
    }
    proof {
        assert(r@ =~= v@);
    }
    r
}

// ---------------------------------------------------------------------------
// The call-matching algorithm.
// ---------------------------------------------------------------------------

/// Positions `i < j` in the hand whose tiles complete a chow with the
/// discarded tile.
pub open spec fn chii_cand(s: Seq<TileInstance>, d: Tile, i: int, j: int) -> bool {
    0 <= i && i < j && j < s.len() && is_chow_spec(d, s[i].tile, s[j].tile)
}

/// Enumeration order over position pairs: `(i2, j2)` comes before `(i, j)`.
pub open spec fn lex_before(i2: int, j2: int, i: int, j: int) -> bool {
    i2 < i || (i2 == i && j2 < j)
}

/// The two unordered pairs of tile values coincide.
pub open spec fn same_pair_values(a1: Tile, b1: Tile, a2: Tile, b2: Tile) -> bool {
    (a1 == a2 && b1 == b2) || (a1 == b2 && b1 == a2)
}

/// A candidate pair is kept when no earlier candidate proposes the same
/// unordered pair of tile values: the earliest candidate represents its
/// value pair, later copies would look identical to the players.
pub open spec fn chii_kept(s: Seq<TileInstance>, d: Tile, i: int, j: int) -> bool {
    chii_cand(s, d, i, j) && forall|i2: int, j2: int|
        #[trigger] chii_cand(s, d, i2, j2) && lex_before(i2, j2, i, j) ==> !same_pair_values(
            s[i].tile,
            s[j].tile,
            s[i2].tile,
            s[j2].tile,
        )
}

/// The chii call a pair of hand tiles stands for.
pub open spec fn pair_call(p: (TileInstance, TileInstance)) -> Call {
    Call::Chii(p.0.id, p.1.id)
}

/// `p` is some kept candidate from before enumeration position `(i, j)`.
pub open spec fn pair_from_before(
    s: Seq<TileInstance>,
    d: Tile,
    i: int,
    j: int,
    p: (TileInstance, TileInstance),
) -> bool {
    exists|i2: int, j2: int|
        #[trigger] chii_kept(s, d, i2, j2) && lex_before(i2, j2, i, j) && p == (s[i2], s[j2])
}

/// Some collected candidate carries exactly this unordered value pair.
pub open spec fn has_pair_values(
    cands: Seq<(TileInstance, TileInstance)>,
    a: Tile,
    b: Tile,
) -> bool {
    exists|m: int|
        0 <= m < cands.len() && same_pair_values(
            (#[trigger] cands[m]).0.tile,
            cands[m].1.tile,
            a,
            b,
        )
}

/// No two collected candidates share their value pair.
pub open spec fn pairwise_value_distinct(cands: Seq<(TileInstance, TileInstance)>) -> bool {
    forall|m1: int, m2: int| 0 <= m1 < m2 < cands.len() ==> !same_pair_values(
        (#[trigger] cands[m1]).0.tile,
        cands[m1].1.tile,
        (#[trigger] cands[m2]).0.tile,
        cands[m2].1.tile,
    )
}

/// Invariant of the candidate collection up to enumeration position
/// `(i, j)`: the collected pairs are exactly the kept candidates so far,
/// every candidate so far has a representative, and no value pair repeats.
pub open spec fn cands_ok(
    cands: Seq<(TileInstance, TileInstance)>,
    s: Seq<TileInstance>,
    d: Tile,
    i: int,
    j: int,
) -> bool {
    &&& forall|m: int| 0 <= m < cands.len() ==> pair_from_before(s, d, i, j, #[trigger] cands[m])
    &&& forall|i2: int, j2: int|
        #[trigger] chii_kept(s, d, i2, j2) && lex_before(i2, j2, i, j) ==> cands.contains(
            (s[i2], s[j2]),
        )
    &&& forall|i2: int, j2: int|
        #[trigger] chii_cand(s, d, i2, j2) && lex_before(i2, j2, i, j) ==> has_pair_values(
            cands,
            s[i2].tile,
            s[j2].tile,
        )
    &&& pairwise_value_distinct(cands)
}

/// Moving from the end of row `i` to the start of row `i + 1` covers the
/// same candidates.
proof fn lemma_cands_ok_row_step(
    cands: Seq<(TileInstance, TileInstance)>,
    s: Seq<TileInstance>,
    d: Tile,
    i: int,
)
    requires
        cands_ok(cands, s, d, i, s.len() as int),
    ensures
        cands_ok(cands, s, d, i + 1, i + 2),
{
    assert forall|m: int| 0 <= m < cands.len() implies pair_from_before(
        s,
        d,
        i + 1,
        i + 2,
        #[trigger] cands[m],
    ) by {
        let (i2, j2) = choose|i2: int, j2: int|
            #[trigger] chii_kept(s, d, i2, j2) && lex_before(i2, j2, i, s.len() as int)
                && cands[m] == (s[i2], s[j2]);
        assert(lex_before(i2, j2, i + 1, i + 2));
    }
    assert forall|i2: int, j2: int|
        #[trigger] chii_kept(s, d, i2, j2) && lex_before(i2, j2, i + 1, i + 2) implies cands
        .contains((s[i2], s[j2])) by {
        assert(lex_before(i2, j2, i, s.len() as int));
    }
    assert forall|i2: int, j2: int|
        #[trigger] chii_cand(s, d, i2, j2) && lex_before(i2, j2, i + 1, i + 2) implies
        has_pair_values(cands, s[i2].tile, s[j2].tile) by {
        assert(lex_before(i2, j2, i, s.len() as int));
    }
}

/// An injective numeric key over calls; chii calls are keyed by their tile
/// ids, which gives the returned call list its deterministic order.
pub open spec fn call_key(c: Call) -> int {
    match c {
        Call::Chii(a, b) => a.0 * 256 + b.0,
        Call::Pon(a, b) => 65536 + a.0 * 256 + b.0,
        Call::Kan(t) => 131072 + tile_key(t),
        Call::Ron => 140000,
    }
}

pub open spec fn call_le(c1: Call, c2: Call) -> bool {
    call_key(c1) <= call_key(c2)
}

/// `call_le` as a function value, for the ordering lemmas.
pub open spec fn call_le_f() -> spec_fn(Call, Call) -> bool {
    |c1: Call, c2: Call| call_le(c1, c2)
}

pub proof fn lemma_call_key_injective(c1: Call, c2: Call)
    requires
        call_key(c1) == call_key(c2),
    ensures
        c1 == c2,
{
    match (c1, c2) {
        (Call::Kan(t1), Call::Kan(t2)) => {
            lemma_tile_key_injective(t1, t2);
        },
        _ => {},
    }
}

/// The key order on calls is a total order.
pub proof fn lemma_call_le_total()
    ensures
        total_ordering(call_le_f()),
{
    let f = call_le_f();
    assert forall|x: Call, y: Call| #[trigger] f(x, y) && #[trigger] f(y, x) implies x == y by {
        lemma_call_key_injective(x, y);
    }
    assert(reflexive(f));
    assert(transitive(f));
    assert(strongly_connected(f));
}

/// Computes [`call_key`].
pub fn call_key_exec(c: Call) -> (r: u32)
    ensures
        r == call_key(c),
{
    match c {
        Call::Chii(a, b) => a.0 as u32 * 256 + b.0 as u32,
        Call::Pon(a, b) => 65536 + a.0 as u32 * 256 + b.0 as u32,
        Call::Kan(t) => 131072 + tile_key_exec(t) as u32,
        Call::Ron => 140000,
    }
}

/// There exist kept hand positions carrying exactly these two ids.
pub open spec fn chii_kept_ids(s: Seq<TileInstance>, d: Tile, x: TileId, y: TileId) -> bool {
    exists|i: int, j: int| #[trigger] chii_kept(s, d, i, j) && s[i].id == x && s[j].id == y
}

/// What the chii portion of a call list must look like: only chii calls,
/// ordered by tile ids, no repetitions, and exactly the kept candidates.
pub open spec fn chii_options_ok(r: Seq<Call>, s: Seq<TileInstance>, d: Tile) -> bool {
    &&& forall|k: int| 0 <= k < r.len() ==> (#[trigger] r[k]) is Chii
    &&& sorted_by(r, call_le_f())
    &&& r.no_duplicates()
    &&& forall|x: TileId, y: TileId| #[trigger] r.contains(Call::Chii(x, y)) ==> chii_kept_ids(
        s,
        d,
        x,
        y,
    )
    &&& forall|i: int, j: int| #[trigger] chii_kept(s, d, i, j) ==> r.contains(
        Call::Chii(s[i].id, s[j].id),
    )
}

/// Index of the second instance matching `v`, after the first.
pub open spec fn second_value_index(s: Seq<TileInstance>, v: Tile) -> int {
    let f = value_index(s, v);
    f + 1 + value_index(s.skip(f + 1), v)
}

/// The one pon call a hand offers: the first two matching copies in hand
/// order.
pub open spec fn pon_option(s: Seq<TileInstance>, v: Tile) -> Call {
    Call::Pon(s[value_index(s, v)].id, s[second_value_index(s, v)].id)
}

/// The pon and kan portion of the call list: one pon for two or more
/// matching copies, plus one kan when all three remaining copies are in
/// hand.
pub open spec fn ponkan_options(s: Seq<TileInstance>, v: Tile) -> Seq<Call> {
    let n = count_value(s, v);
    let pon: Seq<Call> = if n >= 2 {
        seq![pon_option(s, v)]
    } else {
        Seq::empty()
    };
    let kan: Seq<Call> = if n == 3 {
        seq![Call::Kan(v)]
    } else {
        Seq::empty()
    };
    pon + kan
}

/// Full characterization of [`HandState::find_possible_calls`]: the chii
/// options (only when the caller may chii) followed by the pon and kan
/// options.
pub open spec fn possible_calls_ok(
    r: Seq<Call>,
    s: Seq<TileInstance>,
    d: Tile,
    can_chii: bool,
) -> bool {
    let pk = ponkan_options(s, d);
    let cl = r.len() - pk.len();
    &&& r.len() >= pk.len()
    &&& r.skip(cl as int) == pk
    &&& (can_chii ==> chii_options_ok(r.take(cl as int), s, d))
    &&& (!can_chii ==> cl == 0)
}

impl HandState {
    /// Determines what possible calls can be made for another player's
    /// discarded tile.
    ///
    /// `can_call_chii` indicates if "chii" calls are valid for the current
    /// discard, i.e. if the player discarding the tile sits immediately to
    /// the left of this player; when it is false only "pon" and "kan" calls
    /// are considered.
    ///
    /// At most one "pon" and one "kan" call is returned, however many ways
    /// there are to pick the matching copies. Chii candidates made of the
    /// same tile values but different physical copies are reduced to one
    /// representative, and the chii calls are ordered by their tile ids, so
    /// equal hands always produce the same call list.
    pub fn find_possible_calls(&self, discard: Tile, can_call_chii: bool) -> (calls: Vec<Call>)
        requires
            tiles_distinct(self.tiles@),
            count_value(self.tiles@, discard) <= 3,
        ensures
            possible_calls_ok(calls@, self.tiles@, discard, can_call_chii),
    {
        let ghost s = self.tiles@;
        let mut calls: Vec<Call> = Vec::new();
        if can_call_chii {
            let cands = self.chii_candidates(discard);
            proof {
                // Entries of `cands` stand for distinct calls: equal ids
                // mean equal positions, and two kept entries never share
                // their value pair.
                assert forall|m1: int, m2: int|
                    0 <= m1 < m2 < cands@.len() implies pair_call(#[trigger] cands@[m1])
                    != pair_call(#[trigger] cands@[m2]) by {
                    if pair_call(cands@[m1]) == pair_call(cands@[m2]) {
                        let (i1, j1) = choose|i1: int, j1: int|
                            #[trigger] chii_kept(s, discard, i1, j1) && lex_before(
                                i1,
                                j1,
                                s.len() as int,
                                s.len() as int + 1,
                            ) && cands@[m1] == (s[i1], s[j1]);
                        let (i2, j2) = choose|i2: int, j2: int|
                            #[trigger] chii_kept(s, discard, i2, j2) && lex_before(
                                i2,
                                j2,
                                s.len() as int,
                                s.len() as int + 1,
                            ) && cands@[m2] == (s[i2], s[j2]);
                        assert(ids_of(s)[i1] == s[i1].id);
                        assert(ids_of(s)[i2] == s[i2].id);
                        assert(ids_of(s)[j1] == s[j1].id);
                        assert(ids_of(s)[j2] == s[j2].id);
                        assert(i1 == i2 && j1 == j2);
                        assert(same_pair_values(
                            cands@[m1].0.tile,
                            cands@[m1].1.tile,
                            cands@[m2].0.tile,
                            cands@[m2].1.tile,
                        ));
                    }
                }
            }
            calls = sorted_chii_calls(&cands);
            proof {
                assert forall|x: TileId, y: TileId| #[trigger] calls@.contains(
                    Call::Chii(x, y),
                ) implies chii_kept_ids(s, discard, x, y) by {
                    let k = choose|k: int| 0 <= k < calls@.len() && calls@[k] == Call::Chii(x, y);
                    let m = choose|m: int|
                        0 <= m < cands@.len() && #[trigger] calls@[k] == pair_call(cands@[m]);
                    let (i, j) = choose|i: int, j: int|
                        #[trigger] chii_kept(s, discard, i, j) && lex_before(
                            i,
                            j,
                            s.len() as int,
                            s.len() as int + 1,
                        ) && cands@[m] == (s[i], s[j]);
                    assert(chii_kept(s, discard, i, j) && s[i].id == x && s[j].id == y);
                }
                assert forall|i: int, j: int| #[trigger] chii_kept(s, discard, i, j) implies calls@
                    .contains(Call::Chii(s[i].id, s[j].id)) by {
                    assert(lex_before(i, j, s.len() as int, s.len() as int + 1));
                    let m = choose|m: int|
                        0 <= m < cands@.len() && #[trigger] cands@[m] == (s[i], s[j]);
                    assert(calls@.contains(pair_call(cands@[m])));
                }
                assert forall|k: int| 0 <= k < calls@.len() implies (#[trigger] calls@[k])
                    is Chii by {
                    let m = choose|m: int|
                        0 <= m < cands@.len() && #[trigger] calls@[k] == pair_call(cands@[m]);
                }
                assert(chii_options_ok(calls@, s, discard));
            }
        }
        let ghost chii_part = calls@;
        // Count how many copies of the discarded tile value are in the
        // hand, remembering the first two in hand order; two copies allow a
        // pon, three also allow a kan.
        let mut cnt: u8 = 0;
        let mut first: Option<TileInstance> = None;
        let mut second: Option<TileInstance> = None;
        let mut k: usize = 0;
        while k < self.tiles.len()
            invariant
                k <= s.len(),
                s == self.tiles@,
                count_value(s, discard) <= 3,
                cnt as int == count_value(s.take(k as int), discard),
                cnt == 0 ==> first is None && second is None && forall|m: int|
                    0 <= m < k as int ==> (#[trigger] s[m]).tile != discard,
                cnt >= 1 ==> {
                    &&& 0 <= value_index(s, discard) < k as int
                    &&& first == Some(s[value_index(s, discard)])
                },
                cnt == 1 ==> second is None && forall|m: int|
                    value_index(s, discard) < m < k as int ==> (#[trigger] s[m]).tile != discard,
                cnt >= 2 ==> {
                    &&& value_index(s, discard) < second_value_index(s, discard) < k as int
                    &&& second == Some(s[second_value_index(s, discard)])
                },
            decreases s.len() - k as int,
        {
            proof {
                lemma_count_value_prefix(s, discard, k as int + 1);
                assert(s.take(k as int + 1).drop_last() =~= s.take(k as int));
                assert(s.take(k as int + 1).last() == s[k as int]);
            }
            if tiles_value_eq(self.tiles[k].tile, discard) {
                if cnt == 0 {
                    proof {
                        lemma_value_index_is(s, discard, k as int);
                    }
                    first = Some(self.tiles[k]);
                } else if cnt == 1 {
                    proof {
                        let f = value_index(s, discard);
                        assert forall|m: int| 0 <= m < k as int - f - 1 implies (#[trigger] s.skip(
                            f + 1,
                        )[m]).tile != discard by {
                            assert(s.skip(f + 1)[m] == s[m + f + 1]);
                        }
                        assert(s.skip(f + 1)[k as int - f - 1] == s[k as int]);
                        lemma_value_index_is(s.skip(f + 1), discard, k as int - f - 1);
                    }
                    second = Some(self.tiles[k]);
                }
                cnt = cnt + 1;
            }
            k = k + 1;
        }
        proof {
            assert(s.take(s.len() as int) =~= s);
        }
        if cnt >= 2 {
            let f = match first {
                Some(t) => t,
                None => unreached(),
            };
            let sec = match second {
                Some(t) => t,
                None => unreached(),
            };
            calls.push(Call::Pon(f.id, sec.id));
        }
        if cnt == 3 {
            calls.push(Call::Kan(discard));
        }
        proof {
            let pk = ponkan_options(s, discard);
            let cl = calls@.len() - pk.len();
            assert(calls@.take(cl as int) =~= chii_part);
            assert(calls@.skip(cl as int) =~= pk);
        }
        calls
    }

    /// Collects the kept chii candidates in enumeration order.
    #[verifier::rlimit(50)]
    fn chii_candidates(&self, d: Tile) -> (cands: Vec<(TileInstance, TileInstance)>)
        ensures
            cands_ok(cands@, self.tiles@, d, self.tiles@.len() as int, self.tiles@.len() as int + 1),
    {
        let ghost s = self.tiles@;
        let n = self.tiles.len();
        let mut cands: Vec<(TileInstance, TileInstance)> = Vec::new();
        let mut i: usize = 0;
        while i < n
            invariant
                i <= n,
                n == s.len(),
                s == self.tiles@,
                cands_ok(cands@, s, d, i as int, i as int + 1),
            decreases n - i,
        {
            let mut j: usize = i + 1;
            while j < n
                invariant
                    i < n,
                    i + 1 <= j <= n,
                    n == s.len(),
                    s == self.tiles@,
                    cands_ok(cands@, s, d, i as int, j as int),
                decreases n - j,
            {
                let ti = self.tiles[i];
                let tj = self.tiles[j];
                if is_chow(d, ti.tile, tj.tile) {
                    self.consider_candidate(&mut cands, ti, tj, Ghost(i as int), Ghost(j as int), d);
                } else {
                    proof {
                        assert(!chii_cand(s, d, i as int, j as int));
                        lemma_cands_ok_next(cands@, s, d, i as int, j as int);
                    }
                }
                j = j + 1;
            }
            proof {
                lemma_cands_ok_row_step(cands@, s, d, i as int);
            }
            i = i + 1;
        }
        proof {
            if n == 0 {
                assert(cands_ok(cands@, s, d, n as int, n as int + 1)) by {
                    assert(forall|i2: int, j2: int| !(#[trigger] chii_kept(s, d, i2, j2)));
                    assert(forall|i2: int, j2: int| !(#[trigger] chii_cand(s, d, i2, j2)));
                }
            }
        }
        cands
    }

    /// Handles one chow-forming pair: keep it unless an earlier candidate
    /// already proposed the same two tile values.
    fn consider_candidate(
        &self,
        cands: &mut Vec<(TileInstance, TileInstance)>,
        ti: TileInstance,
        tj: TileInstance,
        Ghost(i): Ghost<int>,
        Ghost(j): Ghost<int>,
        d: Tile,
    )
        requires
            cands_ok(old(cands)@, self.tiles@, d, i, j),
            0 <= i < j < self.tiles@.len(),
            ti == self.tiles@[i],
            tj == self.tiles@[j],
            is_chow_spec(d, ti.tile, tj.tile),
        ensures
            cands_ok(final(cands)@, self.tiles@, d, i, j + 1),
    {
        let ghost s = self.tiles@;
        let mut dup = false;
        let mut m: usize = 0;
        while m < cands.len()
            invariant
                m <= cands@.len(),
                cands@ == old(cands)@,
                dup ==> has_pair_values(cands@, ti.tile, tj.tile),
                !dup ==> forall|m2: int| 0 <= m2 < m ==> !same_pair_values(
                    (#[trigger] cands@[m2]).0.tile,
                    cands@[m2].1.tile,
                    ti.tile,
                    tj.tile,
                ),
            decreases cands@.len() - m,
        {
            let c = cands[m];
            let fwd = tiles_value_eq(c.0.tile, ti.tile) && tiles_value_eq(c.1.tile, tj.tile);
            let rev = tiles_value_eq(c.0.tile, tj.tile) && tiles_value_eq(c.1.tile, ti.tile);
            if fwd || rev {
                dup = true;
            }
            m = m + 1;
        }
        proof {
            assert(chii_cand(s, d, i, j));
        }
        if !dup {
            proof {
                // No earlier candidate shares this value pair, so this pair
                // is kept: any earlier duplicate-valued candidate would
                // have a representative among the collected pairs.
                assert forall|i2: int, j2: int|
                    #[trigger] chii_cand(s, d, i2, j2) && lex_before(i2, j2, i, j) implies
                    !same_pair_values(s[i].tile, s[j].tile, s[i2].tile, s[j2].tile) by {
                    if same_pair_values(s[i].tile, s[j].tile, s[i2].tile, s[j2].tile) {
                        assert(has_pair_values(cands@, s[i2].tile, s[j2].tile));
                        let m2 = choose|m2: int|
                            0 <= m2 < cands@.len() && same_pair_values(
                                (#[trigger] cands@[m2]).0.tile,
                                cands@[m2].1.tile,
                                s[i2].tile,
                                s[j2].tile,
                            );
                        assert(same_pair_values(
                            cands@[m2].0.tile,
                            cands@[m2].1.tile,
                            ti.tile,
                            tj.tile,
                        ));
                        assert(false);
                    }
                }
                assert(chii_kept(s, d, i, j));
            }
            let ghost before = cands@;
            cands.push((ti, tj));
            proof {
                assert forall|m2: int| 0 <= m2 < cands@.len() implies pair_from_before(
                    s,
                    d,
                    i,
                    j + 1,
                    #[trigger] cands@[m2],
                ) by {
                    if m2 < before.len() {
                        assert(cands@[m2] == before[m2]);
                        let (i2, j2) = choose|i2: int, j2: int|
                            #[trigger] chii_kept(s, d, i2, j2) && lex_before(i2, j2, i, j)
                                && before[m2] == (s[i2], s[j2]);
                        assert(lex_before(i2, j2, i, j + 1));
                    } else {
                        assert(cands@[m2] == (s[i], s[j]));
                        assert(lex_before(i, j, i, j + 1));
                    }
                }
                assert forall|i2: int, j2: int|
                    #[trigger] chii_kept(s, d, i2, j2) && lex_before(i2, j2, i, j + 1) implies
                    cands@.contains((s[i2], s[j2])) by {
                    if lex_before(i2, j2, i, j) {
                        let m2 = choose|m2: int|
                            0 <= m2 < before.len() && #[trigger] before[m2] == (s[i2], s[j2]);
                        assert(cands@[m2] == (s[i2], s[j2]));
                    } else {
                        assert(i2 == i && j2 == j);
                        assert(cands@[before.len() as int] == (s[i], s[j]));
                    }
                }
                assert forall|i2: int, j2: int|
                    #[trigger] chii_cand(s, d, i2, j2) && lex_before(i2, j2, i, j + 1) implies
                    has_pair_values(cands@, s[i2].tile, s[j2].tile) by {
                    if lex_before(i2, j2, i, j) {
                        let m2 = choose|m2: int|
                            0 <= m2 < before.len() && same_pair_values(
                                (#[trigger] before[m2]).0.tile,
                                before[m2].1.tile,
                                s[i2].tile,
                                s[j2].tile,
                            );
                        assert(cands@[m2] == before[m2]);
                        assert(same_pair_values(
                            (cands@[m2]).0.tile,
                            cands@[m2].1.tile,
                            s[i2].tile,
                            s[j2].tile,
                        ));
                    } else {
                        assert(i2 == i && j2 == j);
                        let m2 = before.len() as int;
                        assert(cands@[m2] == (s[i], s[j]));
                        assert(same_pair_values(
                            (cands@[m2]).0.tile,
                            cands@[m2].1.tile,
                            s[i2].tile,
                            s[j2].tile,
                        ));
                    }
                }
                assert forall|m1: int, m2: int| 0 <= m1 < m2 < cands@.len() implies
                    !same_pair_values(
                    (#[trigger] cands@[m1]).0.tile,
                    cands@[m1].1.tile,
                    (#[trigger] cands@[m2]).0.tile,
                    cands@[m2].1.tile,
                ) by {
                    if m2 == before.len() as int {
                        assert(cands@[m1] == before[m1]);
                        assert(cands@[m2] == (s[i], s[j]));
                    } else {
                        assert(cands@[m1] == before[m1]);
                        assert(cands@[m2] == before[m2]);
                    }
                }
            }
        } else {
            proof {
                // A duplicate value pair means some earlier candidate
                // exists, so this pair is not kept and nothing changes.
                let m2 = choose|m2: int|
                    0 <= m2 < cands@.len() && same_pair_values(
                        (#[trigger] cands@[m2]).0.tile,
                        cands@[m2].1.tile,
                        ti.tile,
                        tj.tile,
                    );
                let (i2, j2) = choose|i2: int, j2: int|
                    #[trigger] chii_kept(s, d, i2, j2) && lex_before(i2, j2, i, j) && cands@[m2]
                        == (s[i2], s[j2]);
                assert(chii_cand(s, d, i2, j2));
                assert(same_pair_values(s[i].tile, s[j].tile, s[i2].tile, s[j2].tile));
                assert(!chii_kept(s, d, i, j));
                lemma_cands_ok_next(cands@, s, d, i, j);
            }
        }
    }
}

/// When position `(i, j)` is not kept, advancing past it keeps the
/// collection invariant.
proof fn lemma_cands_ok_next(
    cands: Seq<(TileInstance, TileInstance)>,
    s: Seq<TileInstance>,
    d: Tile,
    i: int,
    j: int,
)
    requires
        cands_ok(cands, s, d, i, j),
        !chii_kept(s, d, i, j),
        chii_cand(s, d, i, j) ==> has_pair_values(cands, s[i].tile, s[j].tile),
    ensures
        cands_ok(cands, s, d, i, j + 1),
{
    assert forall|m: int| 0 <= m < cands.len() implies pair_from_before(
        s,
        d,
        i,
        j + 1,
        #[trigger] cands[m],
    ) by {
        let (i2, j2) = choose|i2: int, j2: int|
            #[trigger] chii_kept(s, d, i2, j2) && lex_before(i2, j2, i, j) && cands[m] == (
                s[i2],
                s[j2],
            );
        assert(lex_before(i2, j2, i, j + 1));
    }
    assert forall|i2: int, j2: int|
        #[trigger] chii_kept(s, d, i2, j2) && lex_before(i2, j2, i, j + 1) implies cands.contains(
            (s[i2], s[j2]),
        ) by {
        if !lex_before(i2, j2, i, j) {
            assert(i2 == i && j2 == j);
            assert(false);
        }
    }
    assert forall|i2: int, j2: int|
        #[trigger] chii_cand(s, d, i2, j2) && lex_before(i2, j2, i, j + 1) implies has_pair_values(
            cands,
            s[i2].tile,
            s[j2].tile,
        ) by {
        if !lex_before(i2, j2, i, j) {
            assert(i2 == i && j2 == j);
        }
    }
}

/// Compares two tile values.
pub fn tiles_value_eq(a: Tile, b: Tile) -> (r: bool)
    ensures
        r == (a == b),
{
    a == b
}

/// Position at which `c` slots into the key-ordered list `r`.
fn insert_position(r: &Vec<Call>, c: Call) -> (p: usize)
    ensures
        p <= r@.len(),
        forall|p2: int| 0 <= p2 < p ==> call_key(#[trigger] r@[p2]) < call_key(c),
        p < r@.len() ==> call_key(r@[p as int]) >= call_key(c),
{
    let ck = call_key_exec(c);
    let mut p: usize = 0;
    while p < r.len()
        invariant
            p <= r@.len(),
            ck == call_key(c),
            forall|p2: int| 0 <= p2 < p ==> call_key(#[trigger] r@[p2]) < call_key(c),
        decreases r@.len() - p,
    {
        if call_key_exec(r[p]) >= ck {
            return p;
        }
        p = p + 1;
    }
    p
}

/// Turns candidate pairs into chii calls, ordered by their tile ids.
fn sorted_chii_calls(cands: &Vec<(TileInstance, TileInstance)>) -> (r: Vec<Call>)
    requires
        forall|m1: int, m2: int| 0 <= m1 < m2 < cands@.len() ==> pair_call(#[trigger] cands@[m1])
            != pair_call(#[trigger] cands@[m2]),
    ensures
        sorted_by(r@, call_le_f()),
        r@.no_duplicates(),
        forall|m: int| 0 <= m < cands@.len() ==> r@.contains(pair_call(#[trigger] cands@[m])),
        forall|k: int| 0 <= k < r@.len() ==> exists|m: int|
            0 <= m < cands@.len() && #[trigger] r@[k] == pair_call(cands@[m]),
{
    let mut r: Vec<Call> = Vec::new();
    let mut m: usize = 0;
    while m < cands.len()
        invariant
            m <= cands@.len(),
            forall|m1: int, m2: int| 0 <= m1 < m2 < cands@.len() ==> pair_call(
                #[trigger] cands@[m1],
            ) != pair_call(#[trigger] cands@[m2]),
            forall|p1: int, p2: int| 0 <= p1 < p2 < r@.len() ==> call_key(#[trigger] r@[p1])
                <= call_key(#[trigger] r@[p2]),
            r@.no_duplicates(),
            forall|m2: int| 0 <= m2 < m ==> r@.contains(pair_call(#[trigger] cands@[m2])),
            forall|k: int| 0 <= k < r@.len() ==> exists|m2: int|
                0 <= m2 < m && #[trigger] r@[k] == pair_call(cands@[m2]),
        decreases cands@.len() - m,
    {
        let pair = cands[m];
        let c = Call::Chii(pair.0.id, pair.1.id);
        let p = insert_position(&r, c);
        let ghost old_r = r@;
        proof {
            assert(c == pair_call(cands@[m as int]));
            // The new call is absent so far: each stored call came from an
            // earlier source index, and those give different calls.
            if old_r.contains(c) {
                let k = choose|k: int| 0 <= k < old_r.len() && old_r[k] == c;
                let m2 = choose|m2: int|
                    0 <= m2 < m && #[trigger] old_r[k] == pair_call(cands@[m2]);
                assert(pair_call(cands@[m2]) == pair_call(cands@[m as int]));
                assert(false);
            }
        }
        r.insert(p, c);
        proof {
            old_r.insert_ensures(p as int, c);
            assert forall|p1: int, p2: int| 0 <= p1 < p2 < r@.len() implies call_key(
                #[trigger] r@[p1],
            ) <= call_key(#[trigger] r@[p2]) by {
                let pi = p as int;
                if p1 < pi && p2 == pi {
                    assert(r@[p1] == old_r[p1]);
                    assert(call_key(old_r[p1]) < call_key(c));
                } else if p1 == pi && p2 > pi {
                    assert(r@[p2] == old_r[p2 - 1]);
                    assert(p2 - 1 >= pi);
                    assert(call_key(old_r[pi]) >= call_key(c));
                    if p2 - 1 > pi {
                        assert(call_key(old_r[pi]) <= call_key(old_r[p2 - 1]));
                    }
                } else if p1 < pi && p2 > pi {
                    assert(r@[p1] == old_r[p1]);
                    assert(r@[p2] == old_r[p2 - 1]);
                    assert(call_key(old_r[p1]) < call_key(c));
                    if p2 - 1 > p1 {
                        assert(call_key(old_r[p1]) <= call_key(old_r[p2 - 1]));
                    }
                } else if p1 < pi && p2 < pi {
                    assert(r@[p1] == old_r[p1] && r@[p2] == old_r[p2]);
                } else {
                    assert(p1 > pi || (p1 == pi && p2 > pi) || p2 > pi);
                    if p1 > pi {
                        assert(r@[p1] == old_r[p1 - 1] && r@[p2] == old_r[p2 - 1]);
                    }
                }
            }
            assert forall|k1: int, k2: int| 0 <= k1 < k2 < r@.len() implies r@[k1] != r@[k2] by {
                let pi = p as int;
                if k1 == pi {
                    assert(r@[k1] == c);
                    assert(r@[k2] == old_r[k2 - 1]);
                    assert(old_r.contains(old_r[k2 - 1]));
                } else if k2 == pi {
                    assert(r@[k2] == c);
                    let a1 = if k1 < pi { k1 } else { k1 - 1 };
                    assert(r@[k1] == old_r[a1]);
                    assert(old_r.contains(old_r[a1]));
                } else {
                    let a1 = if k1 < pi { k1 } else { k1 - 1 };
                    let a2 = if k2 < pi { k2 } else { k2 - 1 };
                    assert(r@[k1] == old_r[a1] && r@[k2] == old_r[a2]);
                    assert(a1 != a2);
                }
            }
            assert forall|m2: int| 0 <= m2 < m + 1 implies r@.contains(
                pair_call(#[trigger] cands@[m2]),
            ) by {
                let pi = p as int;
                if m2 == m as int {
                    assert(r@[pi] == c);
                } else {
                    let k = choose|k: int| 0 <= k < old_r.len() && old_r[k] == pair_call(
                        cands@[m2],
                    );
                    if k < pi {
                        assert(r@[k] == old_r[k]);
                    } else {
                        assert(r@[k + 1] == old_r[k]);
                    }
                }
            }
            assert forall|k: int| 0 <= k < r@.len() implies exists|m2: int|
                0 <= m2 < m + 1 && #[trigger] r@[k] == pair_call(cands@[m2]) by {
                let pi = p as int;
                if k == pi {
                    assert(r@[k] == pair_call(cands@[m as int]));
                } else {
                    let a = if k < pi { k } else { k - 1 };
                    assert(r@[k] == old_r[a]);
                }
            }
        }
        m = m + 1;
    }
    proof {
        assert forall|p1: int, p2: int| 0 <= p1 < p2 < r@.len() implies call_le_f()(
            r@[p1],
            r@[p2],
        ) by {
            assert(call_key(r@[p1]) <= call_key(r@[p2]));
        }
    }
    r
}

// ---------------------------------------------------------------------------
// Applying a call to a hand.
// ---------------------------------------------------------------------------

/// Index of the third instance matching `v`, after the second.
pub open spec fn third_value_index(s: Seq<TileInstance>, v: Tile) -> int {
    let f2 = second_value_index(s, v);
    f2 + 1 + value_index(s.skip(f2 + 1), v)
}

/// The three instances ordered by ascending id.
pub open spec fn sort3_by_id(
    x: TileInstance,
    y: TileInstance,
    z: TileInstance,
) -> (TileInstance, TileInstance, TileInstance) {
    if x.id.0 <= y.id.0 {
        if y.id.0 <= z.id.0 {
            (x, y, z)
        } else if x.id.0 <= z.id.0 {
            (x, z, y)
        } else {
            (z, x, y)
        }
    } else {
        if x.id.0 <= z.id.0 {
            (y, x, z)
        } else if y.id.0 <= z.id.0 {
            (y, z, x)
        } else {
            (z, y, x)
        }
    }
}

/// The open kong made for a "kan" call: the claimed discard first, the
/// three copies from the hand after it in ascending id order.
pub open spec fn kan_meld(s: Seq<TileInstance>, discard: TileInstance) -> Meld4 {
    let f1 = value_index(s, discard.tile);
    let f2 = second_value_index(s, discard.tile);
    let f3 = third_value_index(s, discard.tile);
    let q = sort3_by_id(s[f1], s[f2], s[f3]);
    Meld4(discard, q.0, q.1, q.2)
}

/// The open pong made for a "pon" call.
pub open spec fn pon_meld(s: Seq<TileInstance>, discard: TileInstance, a: TileId, b: TileId) -> Meld3 {
    Meld3(discard, s[id_index(s, a)], s[id_index(s, b)])
}

/// The open chow made for a "chii" call.
pub open spec fn chii_meld(s: Seq<TileInstance>, discard: TileInstance, a: TileId, b: TileId) -> Meld3 {
    Meld3(discard, s[id_index(s, a)], s[id_index(s, b)])
}

/// The concealed tiles after a "kan" removed every copy of `v`.
pub open spec fn without_value(s: Seq<TileInstance>, v: Tile) -> Seq<TileInstance> {
    s.filter(|t: TileInstance| t.tile != v)
}

/// Removing the first instance of one id leaves the first instance of a
/// different id in place.
pub proof fn lemma_remove_other_id(s: Seq<TileInstance>, a: TileId, b: TileId)
    requires
        contains_id(s, a),
        contains_id(s, b),
        a != b,
    ensures
        contains_id(remove_id(s, a), b),
        remove_id(s, a)[id_index(remove_id(s, a), b)] == s[id_index(s, b)],
        remove_id(s, a).len() == s.len() - 1,
{
    let ia = id_index(s, a);
    let ib = id_index(s, b);
    lemma_id_index(s, a);
    lemma_id_index(s, b);
    let rest = remove_id(s, a);
    s.remove_ensures(ia);
    assert(ia != ib);
    let ib2: int = if ib < ia {
        ib
    } else {
        ib - 1
    };
    assert(rest[ib2] == s[ib]);
    assert forall|k: int| 0 <= k < ib2 implies (#[trigger] rest[k]).id != b by {
        if k < ia {
            assert(rest[k] == s[k]);
            assert(k < ib);
        } else {
            assert(rest[k] == s[k + 1]);
            assert(k + 1 < ib);
        }
    }
    lemma_id_index_is(rest, b, ib2);
}

impl HandState {
    /// Applies the selected call to the hand: the named tiles move out of
    /// the concealed tiles and form an open meld together with the claimed
    /// discard.
    ///
    /// The call is validated first, and a rejected call leaves the hand
    /// unchanged.
    pub fn call_tile(&mut self, discard: TileInstance, call: Call) -> (r: Result<(), CallInvalid>)
        requires
            call matches Call::Kan(t) ==> t == discard.tile,
        ensures
            match call {
                Call::Ron => {
                    &&& r is Ok
                    &&& final(self).tiles@ == old(self).tiles@.push(discard)
                    &&& final(self).current_draw == old(self).current_draw
                    &&& final(self).discards@ == old(self).discards@
                    &&& unchanged_melds(*old(self), *final(self))
                },
                Call::Kan(t) => {
                    if count_value(old(self).tiles@, t) == 3 {
                        &&& r is Ok
                        &&& final(self).tiles@ == without_value(old(self).tiles@, t)
                        &&& final(self).open_kongs@ == old(self).open_kongs@.push(
                            kan_meld(old(self).tiles@, discard),
                        )
                        &&& final(self).current_draw == old(self).current_draw
                        &&& final(self).discards@ == old(self).discards@
                        &&& final(self).open_chows == old(self).open_chows
                        &&& final(self).open_pongs == old(self).open_pongs
                        &&& final(self).closed_kongs == old(self).closed_kongs
                    } else {
                        r == Err::<(), CallInvalid>(CallInvalid::WrongMatchCount) && *final(self)
                            == *old(self)
                    }
                },
                Call::Pon(a, b) => {
                    if !contains_id(old(self).tiles@, a) {
                        r == Err::<(), CallInvalid>(CallInvalid::MissingTile(a)) && *final(self)
                            == *old(self)
                    } else if !contains_id(old(self).tiles@, b) || a == b {
                        r == Err::<(), CallInvalid>(CallInvalid::MissingTile(b)) && *final(self)
                            == *old(self)
                    } else {
                        &&& r is Ok
                        &&& final(self).tiles@ == remove_id(remove_id(old(self).tiles@, a), b)
                        &&& final(self).open_pongs@ == old(self).open_pongs@.push(
                            pon_meld(old(self).tiles@, discard, a, b),
                        )
                        &&& final(self).current_draw == old(self).current_draw
                        &&& final(self).discards@ == old(self).discards@
                        &&& final(self).open_chows == old(self).open_chows
                        &&& final(self).open_kongs == old(self).open_kongs
                        &&& final(self).closed_kongs == old(self).closed_kongs
                    }
                },
                Call::Chii(a, b) => {
                    if !contains_id(old(self).tiles@, a) {
                        r == Err::<(), CallInvalid>(CallInvalid::MissingTile(a)) && *final(self)
                            == *old(self)
                    } else if !contains_id(old(self).tiles@, b) {
                        r == Err::<(), CallInvalid>(CallInvalid::MissingTile(b)) && *final(self)
                            == *old(self)
                    } else if !is_chow_spec(
                        discard.tile,
                        old(self).tiles@[id_index(old(self).tiles@, a)].tile,
                        old(self).tiles@[id_index(old(self).tiles@, b)].tile,
                    ) {
                        r == Err::<(), CallInvalid>(CallInvalid::NotAChow) && *final(self) == *old(
                            self,
                        )
                    } else {
                        &&& r is Ok
                        &&& final(self).tiles@ == remove_id(remove_id(old(self).tiles@, a), b)
                        &&& final(self).open_chows@ == old(self).open_chows@.push(
                            chii_meld(old(self).tiles@, discard, a, b),
                        )
                        &&& final(self).current_draw == old(self).current_draw
                        &&& final(self).discards@ == old(self).discards@
                        &&& final(self).open_pongs == old(self).open_pongs
                        &&& final(self).open_kongs == old(self).open_kongs
                        &&& final(self).closed_kongs == old(self).closed_kongs
                    }
                },
            },
    {
        let ghost s = self.tiles@;
        match call {
            Call::Ron => {
                self.tiles.push(discard);
                Ok(())
            },
            Call::Kan(tile) => {
                // Collect the three remaining copies while counting the
                // matches; anything other than exactly three rejects the
                // call before any state changes.
                let mut cnt: usize = 0;
                let mut m1: Option<TileInstance> = None;
                let mut m2: Option<TileInstance> = None;
                let mut m3: Option<TileInstance> = None;
                let mut k: usize = 0;
                while k < self.tiles.len()
                    invariant
                        k <= s.len(),
                        s == self.tiles@,
                        cnt <= k,
                        cnt == count_value(s.take(k as int), tile),
                        cnt == 0 ==> m1 is None && m2 is None && m3 is None && forall|m: int|
                            0 <= m < k as int ==> (#[trigger] s[m]).tile != tile,
                        cnt >= 1 ==> {
                            &&& 0 <= value_index(s, tile) < k as int
                            &&& m1 == Some(s[value_index(s, tile)])
                        },
                        cnt == 1 ==> m2 is None && m3 is None && forall|m: int|
                            value_index(s, tile) < m < k as int ==> (#[trigger] s[m]).tile != tile,
                        cnt >= 2 ==> {
                            &&& value_index(s, tile) < second_value_index(s, tile) < k as int
                            &&& m2 == Some(s[second_value_index(s, tile)])
                        },
                        cnt == 2 ==> m3 is None && forall|m: int|
                            second_value_index(s, tile) < m < k as int ==> (#[trigger] s[m]).tile
                                != tile,
                        cnt >= 3 ==> {
                            &&& second_value_index(s, tile) < third_value_index(s, tile)
                                < k as int
                            &&& m3 == Some(s[third_value_index(s, tile)])
                        },
                    decreases s.len() - k as int,
                {
                    proof {
                        assert(s.take(k as int + 1).drop_last() =~= s.take(k as int));
                        assert(s.take(k as int + 1).last() == s[k as int]);
                    }
                    if tiles_value_eq(self.tiles[k].tile, tile) {
                        if cnt == 0 {
                            proof {
                                lemma_value_index_is(s, tile, k as int);
                            }
                            m1 = Some(self.tiles[k]);
                        } else if cnt == 1 {
                            proof {
                                let f = value_index(s, tile);
                                assert forall|m: int| 0 <= m < k as int - f - 1 implies (
                                #[trigger] s.skip(f + 1)[m]).tile != tile by {
                                    assert(s.skip(f + 1)[m] == s[m + f + 1]);
                                }
                                assert(s.skip(f + 1)[k as int - f - 1] == s[k as int]);
                                lemma_value_index_is(s.skip(f + 1), tile, k as int - f - 1);
                            }
                            m2 = Some(self.tiles[k]);
                        } else if cnt == 2 {
                            proof {
                                let f2 = second_value_index(s, tile);
                                assert forall|m: int| 0 <= m < k as int - f2 - 1 implies (
                                #[trigger] s.skip(f2 + 1)[m]).tile != tile by {
                                    assert(s.skip(f2 + 1)[m] == s[m + f2 + 1]);
                                }
                                assert(s.skip(f2 + 1)[k as int - f2 - 1] == s[k as int]);
                                lemma_value_index_is(s.skip(f2 + 1), tile, k as int - f2 - 1);
                            }
                            m3 = Some(self.tiles[k]);
                        }
                        cnt = cnt + 1;
                    }
                    k = k + 1;
                }
                proof {
                    assert(s.take(s.len() as int) =~= s);
                }
                if cnt != 3 {
                    return Err(CallInvalid::WrongMatchCount);
                }
                let t1 = match m1 {
                    Some(t) => t,
                    None => unreached(),
                };
                let t2 = match m2 {
                    Some(t) => t,
                    None => unreached(),
                };
                let t3 = match m3 {
                    Some(t) => t,
                    None => unreached(),
                };
                // Keep only the tiles that do not match the called value.
                let mut kept: Vec<TileInstance> = Vec::new();
                let mut k2: usize = 0;
                while k2 < self.tiles.len()
                    invariant
                        k2 <= s.len(),
                        s == self.tiles@,
                        kept@ == without_value(s.take(k2 as int), tile),
                    decreases s.len() - k2 as int,
                {
                    proof {
                        assert(s.take(k2 as int + 1).drop_last() =~= s.take(k2 as int));
                        assert(s.take(k2 as int + 1).last() == s[k2 as int]);
                        reveal_with_fuel(Seq::filter, 2);
                    }
                    if !tiles_value_eq(self.tiles[k2].tile, tile) {
                        kept.push(self.tiles[k2]);
                    }
                    k2 = k2 + 1;
                }
                proof {
                    assert(s.take(s.len() as int) =~= s);
                }
                let q = sort3_exec(t1, t2, t3);
                self.tiles = kept;
                self.open_kongs.push(Meld4(discard, q.0, q.1, q.2));
                Ok(())
            },
            Call::Pon(a, b) => {
                let ia = match find_id(&self.tiles, a) {
                    Some(at) => at,
                    None => {
                        return Err(CallInvalid::MissingTile(a));
                    },
                };
                let ib = match find_id(&self.tiles, b) {
                    Some(at) => at,
                    None => {
                        return Err(CallInvalid::MissingTile(b));
                    },
                };
                if ia == ib {
                    proof {
                        lemma_id_index(s, a);
                        lemma_id_index(s, b);
                    }
                    return Err(CallInvalid::MissingTile(b));
                }
                proof {
                    lemma_id_index(s, a);
                    lemma_id_index(s, b);
                    lemma_remove_other_id(s, a, b);
                }
                let ta = self.tiles.remove(ia);
                let ib2 = match find_id(&self.tiles, b) {
                    Some(at) => at,
                    None => unreached(),
                };
                proof {
                    lemma_id_index(self.tiles@, b);
                }
                let tb = self.tiles.remove(ib2);
                self.open_pongs.push(Meld3(discard, ta, tb));
                Ok(())
            },
            Call::Chii(a, b) => {
                let ia = match find_id(&self.tiles, a) {
                    Some(at) => at,
                    None => {
                        return Err(CallInvalid::MissingTile(a));
                    },
                };
                let ib = match find_id(&self.tiles, b) {
                    Some(at) => at,
                    None => {
                        return Err(CallInvalid::MissingTile(b));
                    },
                };
                proof {
                    lemma_id_index(s, a);
                    lemma_id_index(s, b);
                }
                let ta = self.tiles[ia];
                let tb = self.tiles[ib];
                if !is_chow(discard.tile, ta.tile, tb.tile) {
                    return Err(CallInvalid::NotAChow);
                }
                proof {
                    // Equal ids would mean the same first position and so
                    // equal tiles, which can never complete a chow.
                    if a == b {
                        assert(ta == tb);
                        assert(!is_chow_spec(discard.tile, ta.tile, tb.tile));
                    }
                    lemma_remove_other_id(s, a, b);
                }
                let _ = self.tiles.remove(ia);
                let ib2 = match find_id(&self.tiles, b) {
                    Some(at) => at,
                    None => unreached(),
                };
                proof {
                    lemma_id_index(self.tiles@, b);
                }
                let _ = self.tiles.remove(ib2);
                self.open_chows.push(Meld3(discard, ta, tb));
                Ok(())
            },
        }
    }
}

/// Orders three tile instances by ascending id.
fn sort3_exec(x: TileInstance, y: TileInstance, z: TileInstance) -> (r: (
    TileInstance,
    TileInstance,
    TileInstance,
))
    ensures
        r == sort3_by_id(x, y, z),
{
    if x.id.0 <= y.id.0 {
        if y.id.0 <= z.id.0 {
            (x, y, z)
        } else if x.id.0 <= z.id.0 {
            (x, z, y)
        } else {
            (z, x, y)
        }
    } else {
        if x.id.0 <= z.id.0 {
            (y, x, z)
        } else if y.id.0 <= z.id.0 {
            (y, z, x)
        } else {
            (z, y, x)
        }
    }
}

// ---------------------------------------------------------------------------
// Laws about the call-matching algorithm.
// ---------------------------------------------------------------------------

/// The tile value of the instance carrying `id`.
pub open spec fn tile_of_in(s: Seq<TileInstance>, id: TileId) -> Tile {
    s[id_index(s, id)].tile
}

/// In a hand without repeated ids, the first index of a tile's id is the
/// tile's own position.
pub proof fn lemma_id_index_self(s: Seq<TileInstance>, i: int)
    requires
        tiles_distinct(s),
        0 <= i < s.len(),
    ensures
        id_index(s, s[i].id) == i,
{
    assert forall|k: int| 0 <= k < i implies (#[trigger] s[k]).id != s[i].id by {
        assert(ids_of(s)[k] == s[k].id);
        assert(ids_of(s)[i] == s[i].id);
    }
    lemma_id_index_is(s, s[i].id, i);
}

/// An instance's id is found in its sequence.
pub proof fn lemma_contains_own_id(s: Seq<TileInstance>, i: int)
    requires
        0 <= i < s.len(),
    ensures
        contains_id(s, s[i].id),
{
    lemma_id_index(s, s[i].id);
    if id_index(s, s[i].id) == -1 {
        assert(s[i].id != s[i].id);
    }
}

/// Whether a call can actually be applied to a hand holding the tiles `s`
/// for a discard with tile value `d`: exactly the successful cases of
/// [`HandState::call_tile`].
pub open spec fn call_valid(s: Seq<TileInstance>, d: Tile, c: Call) -> bool {
    match c {
        Call::Chii(a, b) => contains_id(s, a) && contains_id(s, b) && is_chow_spec(
            d,
            tile_of_in(s, a),
            tile_of_in(s, b),
        ),
        Call::Pon(a, b) => contains_id(s, a) && contains_id(s, b) && a != b,
        Call::Kan(t) => t == d && count_value(s, t) == 3,
        Call::Ron => true,
    }
}

/// Counting matches of `v` finds the claimed first and second positions.
proof fn lemma_two_match_positions(s: Seq<TileInstance>, v: Tile)
    requires
        count_value(s, v) >= 2,
    ensures
        0 <= value_index(s, v) < second_value_index(s, v) < s.len(),
        s[value_index(s, v)].tile == v,
        s[second_value_index(s, v)].tile == v,
    decreases s.len(),
{
    lemma_value_index(s, v);
    let f = value_index(s, v);
    if f == -1 {
        lemma_count_none(s, v);
        assert(false);
    }
    let rest = s.skip(f + 1);
    lemma_value_index(rest, v);
    let f2 = value_index(rest, v);
    if f2 == -1 {
        // Only the first position matches, so the count is at most one.
        assert forall|k: int| 0 <= k < s.len() && k != f implies (#[trigger] s[k]).tile != v by {
            if k > f {
                assert(rest[k - f - 1] == s[k]);
            }
        }
        lemma_count_single(s, v, f);
        assert(false);
    }
    assert(rest[f2] == s[f + 1 + f2]);
}

/// A sequence with no matching tile counts zero.
proof fn lemma_count_none(s: Seq<TileInstance>, v: Tile)
    requires
        forall|k: int| 0 <= k < s.len() ==> (#[trigger] s[k]).tile != v,
    ensures
        count_value(s, v) == 0,
    decreases s.len(),
{
    if s.len() > 0 {
        lemma_count_none(s.drop_last(), v);
    }
}

/// A sequence whose only match sits at `f` counts one.
proof fn lemma_count_single(s: Seq<TileInstance>, v: Tile, f: int)
    requires
        0 <= f < s.len(),
        s[f].tile == v,
        forall|k: int| 0 <= k < s.len() && k != f ==> (#[trigger] s[k]).tile != v,
    ensures
        count_value(s, v) == 1,
    decreases s.len(),
{
    if f == s.len() - 1 {
        lemma_count_none(s.drop_last(), v);
    } else {
        lemma_count_single(s.drop_last(), v, f);
    }
}

/// Every call the matcher returns is applicable to the hand it was
/// computed from.
pub proof fn lemma_possible_calls_valid(
    r: Seq<Call>,
    s: Seq<TileInstance>,
    d: Tile,
    can_chii: bool,
    c: Call,
)
    requires
        possible_calls_ok(r, s, d, can_chii),
        tiles_distinct(s),
        r.contains(c),
    ensures
        call_valid(s, d, c),
        !(c is Ron),
        c matches Call::Pon(a, b) ==> tile_of_in(s, a) == d && tile_of_in(s, b) == d,
{
    let pk = ponkan_options(s, d);
    let cl = r.len() - pk.len();
    let chii_part = r.take(cl as int);
    let k = choose|k: int| 0 <= k < r.len() && r[k] == c;
    if k < cl {
        assert(chii_part[k] == c);
        assert(chii_part.contains(c));
        assert(c is Chii);
        match c {
            Call::Chii(a, b) => {
                let (i, j) = choose|i: int, j: int|
                    #[trigger] chii_kept(s, d, i, j) && s[i].id == a && s[j].id == b;
                lemma_contains_own_id(s, i);
                lemma_contains_own_id(s, j);
                lemma_id_index_self(s, i);
                lemma_id_index_self(s, j);
            },
            _ => {},
        }
    } else {
        assert(r.skip(cl as int)[k - cl] == c);
        assert(pk[k - cl] == c);
        assert(!(c is Ron)) by {
            if count_value(s, d) >= 2 {
                if k - cl == 0 {
                    assert(c == pon_option(s, d));
                } else {
                    assert(c == Call::Kan(d));
                }
            }
        }
        let n = count_value(s, d);
        match c {
            Call::Pon(a, b) => {
                assert(n >= 2);
                assert(c == pon_option(s, d));
                lemma_two_match_positions(s, d);
                let f1 = value_index(s, d);
                let f2 = second_value_index(s, d);
                lemma_contains_own_id(s, f1);
                lemma_contains_own_id(s, f2);
                assert(ids_of(s)[f1] == s[f1].id);
                assert(ids_of(s)[f2] == s[f2].id);
                lemma_id_index_self(s, f1);
                lemma_id_index_self(s, f2);
            },
            _ => {},
        }
    }
}

/// With three matching copies in hand the matcher offers exactly one pon
/// and exactly one kan — never several pons.
pub proof fn lemma_one_pon_one_kan(r: Seq<Call>, s: Seq<TileInstance>, d: Tile, can_chii: bool)
    requires
        possible_calls_ok(r, s, d, can_chii),
        count_value(s, d) == 3,
    ensures
        r.filter(|c: Call| c is Pon).len() == 1,
        r.filter(|c: Call| c is Kan).len() == 1,
{
    let pk = ponkan_options(s, d);
    let cl = r.len() - pk.len();
    let chii_part = r.take(cl as int);
    assert(r =~= chii_part + r.skip(cl as int));
    broadcast use vstd::seq_lib::group_filter_ensures;
    Seq::filter_distributes_over_add(chii_part, pk, |c: Call| c is Pon);
    Seq::filter_distributes_over_add(chii_part, pk, |c: Call| c is Kan);
    lemma_filter_no_match(chii_part, |c: Call| c is Pon);
    lemma_filter_no_match(chii_part, |c: Call| c is Kan);
    assert(pk =~= seq![pon_option(s, d), Call::Kan(d)]);
    reveal_with_fuel(Seq::filter, 4);
    assert(pk.drop_last() =~= seq![pon_option(s, d)]);
    assert(seq![pon_option(s, d)].drop_last() =~= Seq::<Call>::empty());
    assert(pk.filter(|c: Call| c is Pon).len() == 1);
    assert(pk.filter(|c: Call| c is Kan).len() == 1);
}

/// Filtering keeps nothing when no element satisfies the predicate.
proof fn lemma_filter_no_match(s: Seq<Call>, pred: spec_fn(Call) -> bool)
    requires
        forall|k: int| 0 <= k < s.len() ==> !pred(#[trigger] s[k]),
    ensures
        s.filter(pred).len() == 0,
    decreases s.len(),
{
    reveal_with_fuel(Seq::filter, 2);
    if s.len() > 0 {
        lemma_filter_no_match(s.drop_last(), pred);
    }
}

/// Chii candidates that share their two tile values are reduced to one
/// representative: no two returned chii calls read the same to a player.
pub proof fn lemma_chii_dedup(
    r: Seq<Call>,
    s: Seq<TileInstance>,
    d: Tile,
    k1: int,
    k2: int,
    x1: TileId,
    y1: TileId,
    x2: TileId,
    y2: TileId,
)
    requires
        possible_calls_ok(r, s, d, true),
        tiles_distinct(s),
        0 <= k1 < k2 < r.len() - ponkan_options(s, d).len(),
        r[k1] == Call::Chii(x1, y1),
        r[k2] == Call::Chii(x2, y2),
    ensures
        !same_pair_values(tile_of_in(s, x1), tile_of_in(s, y1), tile_of_in(s, x2), tile_of_in(s, y2)),
{
    let pk = ponkan_options(s, d);
    let cl = r.len() - pk.len();
    let chii_part = r.take(cl as int);
    assert(chii_part[k1] == r[k1]);
    assert(chii_part[k2] == r[k2]);
    assert(chii_part.contains(Call::Chii(x1, y1)));
    assert(chii_part.contains(Call::Chii(x2, y2)));
    let (i1, j1) = choose|i1: int, j1: int|
        #[trigger] chii_kept(s, d, i1, j1) && s[i1].id == x1 && s[j1].id == y1;
    let (i2, j2) = choose|i2: int, j2: int|
        #[trigger] chii_kept(s, d, i2, j2) && s[i2].id == x2 && s[j2].id == y2;
    lemma_id_index_self(s, i1);
    lemma_id_index_self(s, j1);
    lemma_id_index_self(s, i2);
    lemma_id_index_self(s, j2);
    // The two calls are distinct, so the kept positions differ, and the
    // later kept pair excludes sharing its value pair with the earlier.
    assert(chii_part[k1] != chii_part[k2]);
    assert((i1, j1) != (i2, j2));
    if lex_before(i1, j1, i2, j2) {
        assert(chii_cand(s, d, i1, j1));
        assert(!same_pair_values(s[i2].tile, s[j2].tile, s[i1].tile, s[j1].tile));
    } else {
        assert(lex_before(i2, j2, i1, j1));
        assert(chii_cand(s, d, i2, j2));
        assert(!same_pair_values(s[i1].tile, s[j1].tile, s[i2].tile, s[j2].tile));
    }
}

/// The call list is a function of the hand tiles alone: any two lists that
/// satisfy the characterization are equal. The server and each client
/// therefore compute identical call lists from identical hands.
pub proof fn lemma_possible_calls_unique(
    r1: Seq<Call>,
    r2: Seq<Call>,
    s: Seq<TileInstance>,
    d: Tile,
    can_chii: bool,
)
    requires
        possible_calls_ok(r1, s, d, can_chii),
        possible_calls_ok(r2, s, d, can_chii),
    ensures
        r1 == r2,
{
    let pk = ponkan_options(s, d);
    let cl1 = r1.len() - pk.len();
    let cl2 = r2.len() - pk.len();
    let c1 = r1.take(cl1 as int);
    let c2 = r2.take(cl2 as int);
    if !can_chii {
        assert(r1 =~= c1 + r1.skip(cl1 as int));
        assert(r2 =~= c2 + r2.skip(cl2 as int));
        assert(c1 =~= c2);
        assert(r1 =~= r2);
    } else {
        broadcast use vstd::seq_lib::group_to_multiset_ensures;
        // The two chii parts hold the same calls.
        assert forall|c: Call| c1.contains(c) implies c2.contains(c) by {
            let k = choose|k: int| 0 <= k < c1.len() && c1[k] == c;
            assert(c1[k] is Chii);
            match c {
                Call::Chii(x, y) => {
                    assert(chii_kept_ids(s, d, x, y));
                    let (i, j) = choose|i: int, j: int|
                        #[trigger] chii_kept(s, d, i, j) && s[i].id == x && s[j].id == y;
                    assert(c2.contains(Call::Chii(s[i].id, s[j].id)));
                },
                _ => {},
            }
        }
        assert forall|c: Call| c2.contains(c) implies c1.contains(c) by {
            let k = choose|k: int| 0 <= k < c2.len() && c2[k] == c;
            assert(c2[k] is Chii);
            match c {
                Call::Chii(x, y) => {
                    assert(chii_kept_ids(s, d, x, y));
                    let (i, j) = choose|i: int, j: int|
                        #[trigger] chii_kept(s, d, i, j) && s[i].id == x && s[j].id == y;
                    assert(c1.contains(Call::Chii(s[i].id, s[j].id)));
                },
                _ => {},
            }
        }
        // Same elements without repetition: the multisets agree.
        c1.lemma_multiset_has_no_duplicates();
        c2.lemma_multiset_has_no_duplicates();
        assert forall|c: Call| true implies #[trigger] c1.to_multiset().count(c) == c2.to_multiset().count(c) by {
            if c1.contains(c) {
                assert(c2.contains(c));
            } else if c2.contains(c) {
                assert(c1.contains(c));
                assert(false);
            } else {
                assert(c1.to_multiset().count(c) == 0);
                assert(c2.to_multiset().count(c) == 0);
            }
        }
        assert(c1.to_multiset() =~= c2.to_multiset());
        lemma_call_le_total();
        vstd::seq_lib::lemma_sorted_unique(c1, c2, call_le_f());
        assert(r1 =~= c1 + pk);
        assert(r2 =~= c2 + pk);
        assert(r1 =~= r2);
    }
}

/// The hand budget as a player sees it: before any meld was made, a hand
/// holds thirteen concealed tiles, fourteen counting a current draw. A
/// hand that called holds the claimed tile too, so each open meld carries
/// one tile beyond the own budget.
pub proof fn lemma_hand_budget(h: HandState)
    requires
        hand_budget_ok(h),
        h.open_chows@.len() == 0,
        h.open_pongs@.len() == 0,
        h.open_kongs@.len() == 0,
        h.closed_kongs@.len() == 0,
    ensures
        h.current_draw is None ==> h.tiles@.len() + opt_seq(h.current_draw).len() == 13,
        h.current_draw is Some ==> h.tiles@.len() + opt_seq(h.current_draw).len() == 14,
{
}

// ---------------------------------------------------------------------------
// Copies and comparisons.
// ---------------------------------------------------------------------------

/// Element-for-element copy of a meld list.
pub fn copy_melds3(v: &Vec<Meld3>) -> (r: Vec<Meld3>)
    ensures
        r@ == v@,
{
    let mut r: Vec<Meld3> = Vec::new();
    let mut k: usize = 0;
    while k < v.len()
        invariant
            0 <= k <= v@.len(),
            r@ == v@.subrange(0, k as int),
        decreases v@.len() - k as int,
    {
        r.push(v[k]);
        k = k + 1;
    }
    proof {
        assert(r@ =~= v@);
    }
    r
}

/// Element-for-element copy of a kong list.
pub fn copy_melds4(v: &Vec<Meld4>) -> (r: Vec<Meld4>)
    ensures
        r@ == v@,
{
    let mut r: Vec<Meld4> = Vec::new();
    let mut k: usize = 0;
    while k < v.len()
        invariant
            0 <= k <= v@.len(),
            r@ == v@.subrange(0, k as int),
        decreases v@.len() - k as int,
    {
        r.push(v[k]);
        k = k + 1;
    }
    proof {
        assert(r@ =~= v@);
    }
    r
}

/// Element-for-element copy of a call list.
pub fn copy_calls(v: &Vec<Call>) -> (r: Vec<Call>)
    ensures
        r@ == v@,
{
    let mut r: Vec<Call> = Vec::new();
    let mut k: usize = 0;
    while k < v.len()
        invariant
            0 <= k <= v@.len(),
            r@ == v@.subrange(0, k as int),
        decreases v@.len() - k as int,
    {
        r.push(v[k]);
        k = k + 1;
    }
    proof {
        assert(r@ =~= v@);
    }
    r
}

/// Element-for-element comparison of tile vectors.
pub fn tiles_eq(a: &Vec<TileInstance>, b: &Vec<TileInstance>) -> (r: bool)
    ensures
        r == (a@ == b@),
{
    if a.len() != b.len() {
        return false;
    }
    let mut k: usize = 0;
    while k < a.len()
        invariant
            a@.len() == b@.len(),
            0 <= k <= a@.len(),
            forall|m: int| 0 <= m < k ==> a@[m] == b@[m],
        decreases a@.len() - k as int,
    {
        if !(a[k] == b[k]) {
            proof {
                assert(a@[k as int] != b@[k as int]);
            }
            return false;
        }
        k = k + 1;
    }
    proof {
        assert(a@ =~= b@);
    }
    true
}

/// Element-for-element comparison of meld lists.
pub fn melds3_eq(a: &Vec<Meld3>, b: &Vec<Meld3>) -> (r: bool)
    ensures
        r == (a@ == b@),
{
    if a.len() != b.len() {
        return false;
    }
    let mut k: usize = 0;
    while k < a.len()
        invariant
            a@.len() == b@.len(),
            0 <= k <= a@.len(),
            forall|m: int| 0 <= m < k ==> a@[m] == b@[m],
        decreases a@.len() - k as int,
    {
        if !(a[k] == b[k]) {
            proof {
                assert(a@[k as int] != b@[k as int]);
            }
            return false;
        }
        k = k + 1;
    }
    proof {
        assert(a@ =~= b@);
    }
    true
}

/// Element-for-element comparison of kong lists.
pub fn melds4_eq(a: &Vec<Meld4>, b: &Vec<Meld4>) -> (r: bool)
    ensures
        r == (a@ == b@),
{
    if a.len() != b.len() {
        return false;
    }
    let mut k: usize = 0;
    while k < a.len()
        invariant
            a@.len() == b@.len(),
            0 <= k <= a@.len(),
            forall|m: int| 0 <= m < k ==> a@[m] == b@[m],
        decreases a@.len() - k as int,
    {
        if !(a[k] == b[k]) {
            proof {
                assert(a@[k as int] != b@[k as int]);
            }
            return false;
        }
        k = k + 1;
    }
    proof {
        assert(a@ =~= b@);
    }
    true
}

/// Element-for-element comparison of call lists.
pub fn calls_eq(a: &Vec<Call>, b: &Vec<Call>) -> (r: bool)
    ensures
        r == (a@ == b@),
{
    if a.len() != b.len() {
        return false;
    }
    let mut k: usize = 0;
    while k < a.len()
        invariant
            a@.len() == b@.len(),
            0 <= k <= a@.len(),
            forall|m: int| 0 <= m < k ==> a@[m] == b@[m],
        decreases a@.len() - k as int,
    {
        if !(a[k] == b[k]) {
            proof {
                assert(a@[k as int] != b@[k as int]);
            }
            return false;
        }
        k = k + 1;
    }
    proof {
        assert(a@ =~= b@);
    }
    true
}

/// Comparison of optional tile instances.
pub fn opt_tile_eq(a: &Option<TileInstance>, b: &Option<TileInstance>) -> (r: bool)
    ensures
        r == (a == b),
{
    match (a, b) {
        (Some(x), Some(y)) => *x == *y,
        (None, None) => true,
        _ => false,
    }
}

/// Two hands are equal when all their parts are.
pub open spec fn hand_eq(a: HandState, b: HandState) -> bool {
    &&& a.tiles@ == b.tiles@
    &&& a.current_draw == b.current_draw
    &&& a.open_chows@ == b.open_chows@
    &&& a.open_pongs@ == b.open_pongs@
    &&& a.open_kongs@ == b.open_kongs@
    &&& a.closed_kongs@ == b.closed_kongs@
    &&& a.discards@ == b.discards@
}

impl Clone for HandState {
    /// A deep copy carrying the very same tiles.
    fn clone(&self) -> (r: Self)
        ensures
            hand_eq(*self, r),
    {
        HandState {
            tiles: copy_tiles(&self.tiles),
            current_draw: self.current_draw,
            open_chows: copy_melds3(&self.open_chows),
            open_pongs: copy_melds3(&self.open_pongs),
            open_kongs: copy_melds4(&self.open_kongs),
            closed_kongs: copy_melds4(&self.closed_kongs),
            discards: copy_tiles(&self.discards),
        }
    }
}

impl vstd::std_specs::cmp::PartialEqSpecImpl for HandState {
    open spec fn obeys_eq_spec() -> bool {
        true
    }

    open spec fn eq_spec(&self, other: &HandState) -> bool {
        hand_eq(*self, *other)
    }
}

impl PartialEq for HandState {
    fn eq(&self, other: &Self) -> (r: bool) {
        tiles_eq(&self.tiles, &other.tiles) && opt_tile_eq(&self.current_draw, &other.current_draw)
            && melds3_eq(&self.open_chows, &other.open_chows) && melds3_eq(
            &self.open_pongs,
            &other.open_pongs,
        ) && melds4_eq(&self.open_kongs, &other.open_kongs) && melds4_eq(
            &self.closed_kongs,
            &other.closed_kongs,
        ) && tiles_eq(&self.discards, &other.discards)
    }
}

impl Eq for HandState {

}

// ---------------------------------------------------------------------------
// Call precedence.
// ---------------------------------------------------------------------------

/// Precedence rank of a call kind: ron beats kan beats pon beats chii.
pub open spec fn call_rank(c: Call) -> int {
    match c {
        Call::Chii(..) => 0,
        Call::Pon(..) => 1,
        Call::Kan(..) => 2,
        Call::Ron => 3,
    }
}

/// The full precedence order between two calls on the same discard. Between
/// two rons the head-bump rule applies: the caller closer in turn order to
/// the discarding player wins.
pub open spec fn compare_calls_spec(
    left_seat: Wind,
    left_call: Call,
    right_seat: Wind,
    right_call: Call,
    discarding_seat: Wind,
) -> Ordering {
    if left_call is Ron && right_call is Ron {
        let left_distance = wind_distance(discarding_seat, left_seat);
        let right_distance = wind_distance(discarding_seat, right_seat);
        if right_distance > left_distance {
            Ordering::Greater
        } else if right_distance == left_distance {
            Ordering::Equal
        } else {
            Ordering::Less
        }
    } else if call_rank(left_call) > call_rank(right_call) {
        Ordering::Greater
    } else if call_rank(left_call) < call_rank(right_call) {
        Ordering::Less
    } else {
        Ordering::Equal
    }
}

/// Compares two calls on the same discard, given the seats of both callers
/// and of the discarding player (needed for the head-bump rule between two
/// "ron" calls).
///
/// Two "kan", two "pon" or two "chii" calls can never stand on the same
/// discard — there are only four copies of a tile value, and only the seat
/// left of the discarder may chii — so such pairs are ruled out.
pub fn compare_calls(
    left_seat: Wind,
    left_call: Call,
    right_seat: Wind,
    right_call: Call,
    discarding_seat: Wind,
) -> (r: Ordering)
    requires
        !(left_call is Kan && right_call is Kan),
        !(left_call is Pon && right_call is Pon),
        !(left_call is Chii && right_call is Chii),
    ensures
        r == compare_calls_spec(left_seat, left_call, right_seat, right_call, discarding_seat),
{
    match (left_call, right_call) {
        (Call::Ron, Call::Ron) => {
            let left_distance = discarding_seat.distance_to(left_seat);
            let right_distance = discarding_seat.distance_to(right_seat);
            if right_distance > left_distance {
                Ordering::Greater
            } else if right_distance == left_distance {
                Ordering::Equal
            } else {
                Ordering::Less
            }
        },
        (Call::Ron, _) => Ordering::Greater,
        (Call::Kan(_), Call::Ron) => Ordering::Less,
        (Call::Kan(_), _) => Ordering::Greater,
        (Call::Pon(..), Call::Ron) => Ordering::Less,
        (Call::Pon(..), Call::Kan(_)) => Ordering::Less,
        (Call::Pon(..), Call::Pon(..)) => unreached(),
        (Call::Pon(..), Call::Chii(..)) => Ordering::Greater,
        (Call::Chii(..), _) => Ordering::Less,
    }
}

/// Call precedence, stated as laws: ron beats kan, kan beats pon, pon beats
/// chii, and between two rons the caller closer in turn order to the
/// discarder wins.
pub proof fn lemma_call_precedence(
    left_seat: Wind,
    left_call: Call,
    right_seat: Wind,
    right_call: Call,
    discarding_seat: Wind,
)
    ensures
        left_call is Ron && !(right_call is Ron) ==> compare_calls_spec(
            left_seat,
            left_call,
            right_seat,
            right_call,
            discarding_seat,
        ) == Ordering::Greater,
        left_call is Kan && (right_call is Pon || right_call is Chii) ==> compare_calls_spec(
            left_seat,
            left_call,
            right_seat,
            right_call,
            discarding_seat,
        ) == Ordering::Greater,
        left_call is Pon && right_call is Chii ==> compare_calls_spec(
            left_seat,
            left_call,
            right_seat,
            right_call,
            discarding_seat,
        ) == Ordering::Greater,
        left_call is Ron && right_call is Ron && wind_distance(discarding_seat, left_seat)
            < wind_distance(discarding_seat, right_seat) ==> compare_calls_spec(
            left_seat,
            left_call,
            right_seat,
            right_call,
            discarding_seat,
        ) == Ordering::Greater,
{
}

} // verus!

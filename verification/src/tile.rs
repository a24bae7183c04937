//! Tile values, tile identity, the canonical tileset, and the chow predicate.

use vstd::prelude::*;

verus! {

/// A tile value: one of the simple tiles (three suits, ranks 1–9), a wind,
/// or a dragon.
#[derive(Debug, Clone, Copy, PartialEq, Eq, PartialOrd, Ord, Hash, Structural)]
pub enum Tile {
    Simple(SimpleTile),
    Wind(Wind),
    Dragon(Dragon),
}

/// The suit of a simple tile.
#[derive(Debug, Clone, Copy, PartialEq, Eq, PartialOrd, Ord, Hash, Structural)]
pub enum Suit {
    Coins,
    Bamboo,
    Characters,
}

/// A simple (numbered) tile: a rank 1–9 in one of the three suits.
#[derive(Debug, Clone, Copy, PartialEq, Eq, PartialOrd, Ord, Hash, Structural)]
pub struct SimpleTile {
    pub number: u8,
    pub suit: Suit,
}

/// An honor tile: a wind or a dragon.
#[derive(Debug, Clone, Copy, PartialEq, Eq, PartialOrd, Ord, Hash, Structural)]
pub enum HonorTile {
    Wind(Wind),
    Dragon(Dragon),
}

/// A wind; winds double as seat names and follow the cyclic turn order
/// East → South → West → North → East.
#[derive(Debug, Clone, Copy, PartialEq, Eq, PartialOrd, Ord, Hash, Structural)]
pub enum Wind {
    East,
    South,
    West,
    North,
}

/// A dragon color, with the cyclic order White → Green → Red → White.
#[derive(Debug, Clone, Copy, PartialEq, Eq, PartialOrd, Ord, Hash, Structural)]
pub enum Dragon {
    White,
    Green,
    Red,
}

/// Unique identifier for one physical tile within a match.
///
/// There are four copies of each tile value in the set, so the id is what
/// tells the copies apart. A given id always maps to the same tile value;
/// [`by_id`] computes that value.
#[derive(Debug, Clone, Copy, PartialEq, Eq, PartialOrd, Ord, Hash, Structural)]
pub struct TileId(pub u8);

/// One physical tile: an id paired with its tile value.
///
/// Instances are meant to be moved as logical objects; duplicating one is a
/// bug in the caller.
#[derive(Debug, Clone, Copy, PartialEq, Eq, Hash, Structural)]
pub struct TileInstance {
    pub id: TileId,
    pub tile: Tile,
}

/// Three tile instances forming an open chow or pong.
#[derive(Debug, Clone, Copy, PartialEq, Eq, Structural)]
pub struct Meld3(pub TileInstance, pub TileInstance, pub TileInstance);

/// Four tile instances forming a kong.
#[derive(Debug, Clone, Copy, PartialEq, Eq, Structural)]
pub struct Meld4(
    pub TileInstance,
    pub TileInstance,
    pub TileInstance,
    pub TileInstance,
);

/// The number of tiles in the canonical set: 3 suits × 9 ranks × 4 copies,
/// plus 4 winds × 4 and 3 dragons × 4.
pub const TILE_SET_SIZE: u8 = 136;

impl Tile {
    /// True for winds and dragons, false for simple tiles.
    pub fn is_honor(self) -> (r: bool)
        ensures
            r == !(self is Simple),
    {
        match self {
            Tile::Wind(..) | Tile::Dragon(..) => true,
            Tile::Simple(..) => false,
        }
    }

    /// The honor-tile form of this tile, if it is an honor.
    pub fn as_honor(self) -> (r: Option<HonorTile>)
        ensures
            match self {
                Tile::Wind(w) => r == Some(HonorTile::Wind(w)),
                Tile::Dragon(d) => r == Some(HonorTile::Dragon(d)),
                Tile::Simple(..) => r is None,
            },
    {
        match self {
            Tile::Wind(wind) => Some(HonorTile::Wind(wind)),
            Tile::Dragon(dragon) => Some(HonorTile::Dragon(dragon)),
            Tile::Simple(..) => None,
        }
    }
}

impl SimpleTile {
    pub fn new(suit: Suit, number: u8) -> (r: Self)
        ensures
            r == (SimpleTile { suit, number }),
    {
        Self { suit, number }
    }
}

pub open spec fn wind_index(w: Wind) -> int {
    match w {
        Wind::East => 0,
        Wind::South => 1,
        Wind::West => 2,
        Wind::North => 3,
    }
}

pub open spec fn wind_of_index(i: int) -> Wind {
    if i == 0 {
        Wind::East
    } else if i == 1 {
        Wind::South
    } else if i == 2 {
        Wind::West
    } else {
        Wind::North
    }
}

/// The next wind in cyclic turn order.
pub open spec fn wind_next(w: Wind) -> Wind {
    match w {
        Wind::East => Wind::South,
        Wind::South => Wind::West,
        Wind::West => Wind::North,
        Wind::North => Wind::East,
    }
}

/// The number of turns from `from` to `to`: 0 for the same seat, otherwise
/// the number of `wind_next` steps needed to reach `to`.
pub open spec fn wind_distance(from: Wind, to: Wind) -> int {
    if wind_index(to) >= wind_index(from) {
        wind_index(to) - wind_index(from)
    } else {
        4 + wind_index(to) - wind_index(from)
    }
}

impl Wind {
    /// Returns the next wind in the cycle East → South → West → North → East.
    ///
    /// This determines turn order based on seat winds.
    pub fn next(self) -> (r: Self)
        ensures
            r == wind_next(self),
    {
        match self {
            Wind::East => Wind::South,
            Wind::South => Wind::West,
            Wind::West => Wind::North,
            Wind::North => Wind::East,
        }
    }

    /// Determines the turn distance to `other`, e.g. the distance from
    /// `East` to `South` is 1, and from `East` to `North` is 3.
    pub fn distance_to(self, other: Self) -> (r: u8)
        ensures
            r == wind_distance(self, other),
    {
        let a: u8 = self.index();
        let b: u8 = other.index();
        if b >= a {
            b - a
        } else {
            4 + b - a
        }
    }

    /// The position of this wind in turn order, with East at 0.
    pub fn index(self) -> (r: u8)
        ensures
            r == wind_index(self),
    {
        match self {
            Wind::East => 0,
            Wind::South => 1,
            Wind::West => 2,
            Wind::North => 3,
        }
    }

    /// All four winds in turn order, starting at East.
    pub fn all() -> (r: [Wind; 4])
        ensures
            r@ == seq![Wind::East, Wind::South, Wind::West, Wind::North],
    {
        let r = [Wind::East, Wind::South, Wind::West, Wind::North];
        proof {
            assert(r@ =~= seq![Wind::East, Wind::South, Wind::West, Wind::North]);
        }
        r
    }
}

pub open spec fn dragon_next(d: Dragon) -> Dragon {
    match d {
        Dragon::White => Dragon::Green,
        Dragon::Green => Dragon::Red,
        Dragon::Red => Dragon::White,
    }
}

impl Dragon {
    /// Returns the next dragon in the cycle White → Green → Red → White.
    pub fn next(self) -> (r: Self)
        ensures
            r == dragon_next(self),
    {
        match self {
            Dragon::White => Dragon::Green,
            Dragon::Green => Dragon::Red,
            Dragon::Red => Dragon::White,
        }
    }
}

impl TileInstance {
    pub fn new(tile: Tile, id: TileId) -> (r: Self)
        ensures
            r == (TileInstance { id, tile }),
    {
        Self { id, tile }
    }
}

pub open spec fn suit_of_index(i: int) -> Suit {
    if i == 0 {
        Suit::Coins
    } else if i == 1 {
        Suit::Bamboo
    } else {
        Suit::Characters
    }
}

pub open spec fn suit_index(s: Suit) -> int {
    match s {
        Suit::Coins => 0,
        Suit::Bamboo => 1,
        Suit::Characters => 2,
    }
}

pub open spec fn dragon_index(d: Dragon) -> int {
    match d {
        Dragon::White => 0,
        Dragon::Green => 1,
        Dragon::Red => 2,
    }
}

pub open spec fn dragon_of_index(i: int) -> Dragon {
    if i == 0 {
        Dragon::White
    } else if i == 1 {
        Dragon::Green
    } else {
        Dragon::Red
    }
}

/// The tile value at position `idx` (0 ≤ idx < 34) of the canonical value
/// order: the 27 simples first, by suit and rank, followed by the three
/// dragons and the four winds.
pub open spec fn value_of_index(idx: int) -> Tile {
    if idx < 27 {
        Tile::Simple(SimpleTile { number: (idx % 9 + 1) as u8, suit: suit_of_index(idx / 9) })
    } else if idx < 30 {
        Tile::Dragon(dragon_of_index(idx - 27))
    } else {
        Tile::Wind(wind_of_index(idx - 30))
    }
}

/// The position of a tile value in the canonical value order.
pub open spec fn index_of_value(t: Tile) -> int {
    match t {
        Tile::Simple(s) => suit_index(s.suit) * 9 + s.number - 1,
        Tile::Dragon(d) => 27 + dragon_index(d),
        Tile::Wind(w) => 30 + wind_index(w),
    }
}

/// A tile value that occurs in the canonical set: simple ranks lie in 1–9.
pub open spec fn valid_tile(t: Tile) -> bool {
    match t {
        Tile::Simple(s) => 1 <= s.number <= 9,
        _ => true,
    }
}

/// The tile value a given id stands for: ids are assigned four per value in
/// canonical value order, so id `i` carries the value at position `i / 4`.
pub open spec fn tile_of_id(id: int) -> Tile {
    value_of_index(id / 4)
}

/// The canonical instance with id `i`.
pub open spec fn instance_of_id(i: int) -> TileInstance {
    TileInstance { id: TileId(i as u8), tile: tile_of_id(i) }
}

/// The canonical tileset as a sequence: instance `i` has id `i`.
pub open spec fn tile_set_seq() -> Seq<TileInstance> {
    Seq::new(136, |i: int| instance_of_id(i))
}

pub proof fn lemma_value_index_roundtrip(t: Tile)
    requires
        valid_tile(t),
    ensures
        0 <= index_of_value(t) < 34,
        value_of_index(index_of_value(t)) == t,
{
}

pub proof fn lemma_id_value_valid(id: int)
    requires
        0 <= id < 136,
    ensures
        valid_tile(tile_of_id(id)),
        index_of_value(tile_of_id(id)) == id / 4,
{
}

/// Returns the tile value associated with the specified id.
///
/// Each id has a fixed mapping to a tile value, so callers can pass ids
/// around and recover the value they refer to when necessary.
pub fn by_id(id: TileId) -> (r: Tile)
    requires
        id.0 < TILE_SET_SIZE,
    ensures
        r == tile_of_id(id.0 as int),
{
    let idx: u8 = id.0 / 4;
    if idx < 27 {
        let suit = if idx / 9 == 0 {
            Suit::Coins
        } else if idx / 9 == 1 {
            Suit::Bamboo
        } else {
            Suit::Characters
        };
        Tile::Simple(SimpleTile { number: idx % 9 + 1, suit })
    } else if idx < 30 {
        Tile::Dragon(
            if idx == 27 {
                Dragon::White
            } else if idx == 28 {
                Dragon::Green
            } else {
                Dragon::Red
            },
        )
    } else {
        Tile::Wind(
            if idx == 30 {
                Wind::East
            } else if idx == 31 {
                Wind::South
            } else if idx == 32 {
                Wind::West
            } else {
                Wind::North
            },
        )
    }
}

/// Reconstructs the full instance for an id.
pub fn instance_by_id(id: TileId) -> (r: TileInstance)
    requires
        id.0 < TILE_SET_SIZE,
    ensures
        r == instance_of_id(id.0 as int),
{
    TileInstance { id, tile: by_id(id) }
}

/// The four canonical instances of a tile value, in ascending id order.
pub fn all_instances_of(tile: Tile) -> (r: Meld4)
    requires
        valid_tile(tile),
    ensures
        r == all_instances_spec(tile),
{
    let base: u8 = index_of_value_exec(tile) * 4;
    Meld4(
        instance_by_id(TileId(base)),
        instance_by_id(TileId(base + 1)),
        instance_by_id(TileId(base + 2)),
        instance_by_id(TileId(base + 3)),
    )
}

/// The canonical id quadruple for a tile value, ascending by id.
pub open spec fn all_instances_spec(tile: Tile) -> Meld4 {
    let base = index_of_value(tile) * 4;
    Meld4(
        instance_of_id(base),
        instance_of_id(base + 1),
        instance_of_id(base + 2),
        instance_of_id(base + 3),
    )
}

fn index_of_value_exec(t: Tile) -> (r: u8)
    requires
        valid_tile(t),
    ensures
        r == index_of_value(t),
        r < 34,
{
    match t {
        Tile::Simple(s) => {
            let suit: u8 = match s.suit {
                Suit::Coins => 0,
                Suit::Bamboo => 1,
                Suit::Characters => 2,
            };
            suit * 9 + s.number - 1
        },
        Tile::Dragon(d) => match d {
            Dragon::White => 27,
            Dragon::Green => 28,
            Dragon::Red => 29,
        },
        Tile::Wind(w) => match w {
            Wind::East => 30,
            Wind::South => 31,
            Wind::West => 32,
            Wind::North => 33,
        },
    }
}

/// Builds the full canonical tileset: the 27 simple values, the three
/// dragons, and the four winds, four copies of each, with ids assigned in
/// that fixed order.
pub fn tile_set() -> (r: Vec<TileInstance>)
    ensures
        r@ == tile_set_seq(),
{
    let mut tiles: Vec<TileInstance> = Vec::new();
    let mut i: u8 = 0;
    while i < TILE_SET_SIZE
        invariant
            i <= 136,
            tiles@.len() == i as int,
            forall|k: int| 0 <= k < i as int ==> tiles@[k] == instance_of_id(k),
        decreases 136 - i as int,
    {
        tiles.push(instance_by_id(TileId(i)));
        i = i + 1;
    }
    proof {
        assert(tiles@ =~= tile_set_seq());
    }
    tiles
}

/// Holds when the three ranks are some permutation of `{n, n + 1, n + 2}`.
pub open spec fn three_run(x: int, y: int, z: int) -> bool {
    let lo = min3(x, y, z);
    max3(x, y, z) == lo + 2 && x + y + z == 3 * lo + 3
}

pub open spec fn min3(x: int, y: int, z: int) -> int {
    if x <= y && x <= z {
        x
    } else if y <= z {
        y
    } else {
        z
    }
}

pub open spec fn max3(x: int, y: int, z: int) -> int {
    if x >= y && x >= z {
        x
    } else if y >= z {
        y
    } else {
        z
    }
}

/// Holds exactly when the three tiles form a chow: all simple, one suit,
/// ranks a permutation of three consecutive numbers.
pub open spec fn is_chow_spec(a: Tile, b: Tile, c: Tile) -> bool {
    match (a, b, c) {
        (Tile::Simple(x), Tile::Simple(y), Tile::Simple(z)) => x.suit == y.suit && y.suit
            == z.suit && three_run(x.number as int, y.number as int, z.number as int),
        _ => false,
    }
}

/// Determines if the given tiles form a chow, i.e. a sequence in one suit.
///
/// All three tiles must be simple tiles of the same suit (no dragons or
/// winds), and their numeric values must form a sequence in some
/// permutation.
pub fn is_chow(first: Tile, second: Tile, third: Tile) -> (r: bool)
    ensures
        r == is_chow_spec(first, second, third),
{
    let first = match first {
        Tile::Simple(tile) => tile,
        _ => {
            return false;
        },
    };
    let second = match second {
        Tile::Simple(tile) => tile,
        _ => {
            return false;
        },
    };
    let third = match third {
        Tile::Simple(tile) => tile,
        _ => {
            return false;
        },
    };
    if first.suit != second.suit || first.suit != third.suit {
        return false;
    }
    // Check the six possible orderings of the ranks; any ordering that forms
    // an ascending sequence makes the tiles a valid chow.
    let x: i64 = first.number as i64;
    let y: i64 = second.number as i64;
    let z: i64 = third.number as i64;
    let r = ascending3(x, y, z) || ascending3(x, z, y) || ascending3(y, x, z) || ascending3(
        y,
        z,
        x,
    ) || ascending3(z, x, y) || ascending3(z, y, x);
    proof {
        assert(r == three_run(x as int, y as int, z as int));
    }
    r
}

/// Whether the three values, in the given order, are consecutive ascending.
fn ascending3(a: i64, b: i64, c: i64) -> (r: bool)
    ensures
        r == (b == a + 1 && c == b + 1),
{
    let mut v: Vec<i64> = Vec::new();
    v.push(a);
    v.push(b);
    v.push(c);
    let r = is_sequence(&v);
    proof {
        assert(v@[0] == a && v@[1] == b && v@[2] == c);
        if is_sequence_spec(v@) {
            assert(v@[1] == v@[0] + 1);
            assert(v@[2] == v@[1] + 1);
        }
        if b == a + 1 && c == b + 1 {
            assert(forall|k: int| 1 <= k < v@.len() ==> #[trigger] v@[k] == v@[k - 1] + 1);
        }
    }
    r
}

/// Holds when every element is exactly one greater than its predecessor.
pub open spec fn is_sequence_spec(s: Seq<i64>) -> bool {
    forall|k: int| 1 <= k < s.len() ==> #[trigger] s[k] == s[k - 1] + 1
}

/// Checks if the values form a consecutive ascending sequence: each element
/// must be exactly one greater than the preceding element. Wrapping does not
/// count, so a sequence reaching the maximum value cannot continue. Empty
/// and one-element inputs count as sequences.
pub fn is_sequence(values: &Vec<i64>) -> (r: bool)
    ensures
        r == is_sequence_spec(values@),
{
    if values.len() == 0 {
        return true;
    }
    let mut last: i64 = values[0];
    let mut k: usize = 1;
    while k < values.len()
        invariant
            1 <= k <= values@.len(),
            last == values@[k - 1],
            forall|m: int| 1 <= m < k ==> #[trigger] values@[m] == values@[m - 1] + 1,
        decreases values@.len() - k as int,
    {
        // A value at the numeric maximum cannot have a successor, so a
        // longer input cannot be a sequence.
        if last == i64::MAX {
            proof {
                assert(values@[k as int] <= i64::MAX);
                assert(!(values@[k as int] == values@[k as int - 1] + 1));
            }
            return false;
        }
        if values[k] != last + 1 {
            proof {
                assert(!(values@[k as int] == values@[k as int - 1] + 1));
            }
            return false;
        }
        last = values[k];
        k = k + 1;
    }
    true
}

/// An injective numeric key over tile values, used to give tile values a
/// fixed total order (e.g. when grouping chow candidates by value).
pub open spec fn tile_key(t: Tile) -> int {
    match t {
        Tile::Simple(s) => suit_index(s.suit) * 256 + s.number,
        Tile::Wind(w) => 768 + wind_index(w),
        Tile::Dragon(d) => 772 + dragon_index(d),
    }
}

pub proof fn lemma_tile_key_injective(a: Tile, b: Tile)
    requires
        tile_key(a) == tile_key(b),
    ensures
        a == b,
{
}

/// Computes [`tile_key`].
pub fn tile_key_exec(t: Tile) -> (r: u16)
    ensures
        r == tile_key(t),
{
    match t {
        Tile::Simple(s) => {
            let suit: u16 = match s.suit {
                Suit::Coins => 0,
                Suit::Bamboo => 1,
                Suit::Characters => 2,
            };
            suit * 256 + s.number as u16
        },
        Tile::Wind(w) => 768 + w.index() as u16,
        Tile::Dragon(d) => match d {
            Dragon::White => 772,
            Dragon::Green => 773,
            Dragon::Red => 774,
        },
    }
}

/// A chow is invariant under any permutation of its three tiles.
pub proof fn lemma_chow_permutations(a: Tile, b: Tile, c: Tile)
    ensures
        is_chow_spec(a, b, c) == is_chow_spec(a, c, b),
        is_chow_spec(a, b, c) == is_chow_spec(b, a, c),
        is_chow_spec(a, b, c) == is_chow_spec(b, c, a),
        is_chow_spec(a, b, c) == is_chow_spec(c, a, b),
        is_chow_spec(a, b, c) == is_chow_spec(c, b, a),
{
}

/// No chow holds a wind or a dragon.
pub proof fn lemma_chow_rejects_honors(a: Tile, b: Tile, c: Tile)
    requires
        !(a is Simple) || !(b is Simple) || !(c is Simple),
    ensures
        !is_chow_spec(a, b, c),
{
}

/// No chow mixes suits.
pub proof fn lemma_chow_rejects_mixed_suits(x: SimpleTile, y: SimpleTile, z: SimpleTile)
    requires
        x.suit != y.suit || y.suit != z.suit || x.suit != z.suit,
    ensures
        !is_chow_spec(Tile::Simple(x), Tile::Simple(y), Tile::Simple(z)),
{
}

/// Three consecutive ranks in one suit form a chow, in every order.
pub proof fn lemma_chow_accepts_runs(s: Suit, n: u8)
    requires
        1 <= n <= 7,
    ensures
        is_chow_spec(
            Tile::Simple(SimpleTile { number: n, suit: s }),
            Tile::Simple(SimpleTile { number: (n + 1) as u8, suit: s }),
            Tile::Simple(SimpleTile { number: (n + 2) as u8, suit: s }),
        ),
{
}

} // verus!

//! Tile-level behavior: the chow predicate, sequences, the canonical set.

use mahjong::tile::{
    by_id, is_chow, is_sequence, tile_set, Dragon, SimpleTile, Suit, Tile, TileId, Wind,
};

#[test]
fn rejects_honors() {
    assert!(!is_chow(
        Tile::Dragon(Dragon::White),
        Tile::Simple(SimpleTile { suit: Suit::Coins, number: 1 }),
        Tile::Simple(SimpleTile { suit: Suit::Coins, number: 2 }),
    ));

    assert!(!is_chow(
        Tile::Simple(SimpleTile { suit: Suit::Coins, number: 1 }),
        Tile::Simple(SimpleTile { suit: Suit::Coins, number: 2 }),
        Tile::Dragon(Dragon::White),
    ));

    assert!(!is_chow(
        Tile::Wind(Wind::East),
        Tile::Simple(SimpleTile { suit: Suit::Coins, number: 1 }),
        Tile::Simple(SimpleTile { suit: Suit::Coins, number: 2 }),
    ));

    assert!(!is_chow(
        Tile::Simple(SimpleTile { suit: Suit::Coins, number: 1 }),
        Tile::Simple(SimpleTile { suit: Suit::Coins, number: 2 }),
        Tile::Wind(Wind::East),
    ));
}

#[test]
fn rejects_mismatched_suits() {
    assert!(!is_chow(
        Tile::Simple(SimpleTile { suit: Suit::Coins, number: 1 }),
        Tile::Simple(SimpleTile { suit: Suit::Coins, number: 2 }),
        Tile::Simple(SimpleTile { suit: Suit::Bamboo, number: 3 }),
    ));

    assert!(!is_chow(
        Tile::Simple(SimpleTile { suit: Suit::Bamboo, number: 1 }),
        Tile::Simple(SimpleTile { suit: Suit::Coins, number: 2 }),
        Tile::Simple(SimpleTile { suit: Suit::Coins, number: 3 }),
    ));

    assert!(!is_chow(
        Tile::Simple(SimpleTile { suit: Suit::Coins, number: 1 }),
        Tile::Simple(SimpleTile { suit: Suit::Bamboo, number: 2 }),
        Tile::Simple(SimpleTile { suit: Suit::Coins, number: 3 }),
    ));
}

#[test]
fn all_permutations() {
    let tiles = [
        Tile::Simple(SimpleTile { suit: Suit::Coins, number: 1 }),
        Tile::Simple(SimpleTile { suit: Suit::Coins, number: 2 }),
        Tile::Simple(SimpleTile { suit: Suit::Coins, number: 3 }),
    ];

    let orderings = [
        [0, 1, 2],
        [0, 2, 1],
        [1, 0, 2],
        [1, 2, 0],
        [2, 0, 1],
        [2, 1, 0],
    ];
    for permutation in orderings.iter() {
        assert!(is_chow(
            tiles[permutation[0]],
            tiles[permutation[1]],
            tiles[permutation[2]],
        ));
    }
}

#[test]
fn empty_sequence() {
    assert!(is_sequence(&vec![]));
}

#[test]
fn single_sequence() {
    assert!(is_sequence(&vec![0]));
    assert!(is_sequence(&vec![i32::MIN as i64]));
    assert!(is_sequence(&vec![i32::MAX as i64]));
}

#[test]
fn detects_sequences() {
    // Positive sequences.
    assert!(is_sequence(&vec![0, 1, 2]));
    assert!(is_sequence(&vec![0, 1, 2, 3, 4]));
    assert!(is_sequence(&vec![
        u32::MIN as i64,
        u32::MIN as i64 + 1,
        u32::MIN as i64 + 2,
    ]));

    // Short sequences.
    assert!(is_sequence(&vec![0, 1]));
    assert!(is_sequence(&vec![1234, 1235]));

    // Negative sequences.
    assert!(is_sequence(&vec![-3, -2, -1, 0, 1, 2, 3]));
    assert!(is_sequence(&vec![
        u32::MAX as i64 - 2,
        u32::MAX as i64 - 1,
        u32::MAX as i64,
    ]));
}

#[test]
fn rejects_non_sequences() {
    assert!(!is_sequence(&vec![1, 2, 0]));
    assert!(!is_sequence(&vec![0, 1, 3, 4]));
}

#[test]
fn rejects_descending_sequence() {
    assert!(!is_sequence(&vec![3, 2, 1]));
    assert!(!is_sequence(&vec![-1, -2, -3]));
}

#[test]
fn wrapping_sequence() {
    assert!(!is_sequence(&vec![u32::MAX as i64, u32::MIN as i64]));
    assert!(!is_sequence(&vec![
        u32::MAX as i64 - 2,
        u32::MAX as i64 - 1,
        u32::MAX as i64,
        u32::MIN as i64,
        u32::MIN as i64 + 1,
        u32::MIN as i64 + 2,
    ]));
}

#[test]
fn canonical_tileset_layout() {
    let tiles = tile_set();
    assert_eq!(tiles.len(), 136);
    // Ids run in order, four copies per value: simples by suit and rank,
    // the dragons, the winds.
    for (k, instance) in tiles.iter().enumerate() {
        assert_eq!(instance.id, TileId(k as u8));
        assert_eq!(instance.tile, by_id(instance.id));
    }
    assert_eq!(tiles[0].tile, Tile::Simple(SimpleTile { suit: Suit::Coins, number: 1 }));
    assert_eq!(tiles[35].tile, Tile::Simple(SimpleTile { suit: Suit::Coins, number: 9 }));
    assert_eq!(tiles[36].tile, Tile::Simple(SimpleTile { suit: Suit::Bamboo, number: 1 }));
    assert_eq!(tiles[107].tile, Tile::Simple(SimpleTile { suit: Suit::Characters, number: 9 }));
    assert_eq!(tiles[108].tile, Tile::Dragon(Dragon::White));
    assert_eq!(tiles[119].tile, Tile::Dragon(Dragon::Red));
    assert_eq!(tiles[120].tile, Tile::Wind(Wind::East));
    assert_eq!(tiles[135].tile, Tile::Wind(Wind::North));
}

#[test]
fn wind_cycle_and_distance() {
    let mut wind = Wind::East;
    wind = wind.next();
    assert_eq!(Wind::South, wind);
    wind = wind.next();
    assert_eq!(Wind::West, wind);
    wind = wind.next();
    assert_eq!(Wind::North, wind);
    wind = wind.next();
    assert_eq!(Wind::East, wind);

    assert_eq!(Wind::East.distance_to(Wind::North), 3);
    assert_eq!(Wind::North.distance_to(Wind::East), 1);
    assert_eq!(Wind::West.distance_to(Wind::West), 0);
}

#[test]
fn dragon_cycle() {
    let mut dragon = Dragon::White;
    dragon = dragon.next();
    assert_eq!(Dragon::Green, dragon);
    dragon = dragon.next();
    assert_eq!(Dragon::Red, dragon);
    dragon = dragon.next();
    assert_eq!(Dragon::White, dragon);
}

#[test]
fn honor_helpers() {
    assert!(Tile::Wind(Wind::East).is_honor());
    assert!(Tile::Dragon(Dragon::Red).is_honor());
    assert!(!Tile::Simple(SimpleTile::new(Suit::Bamboo, 5)).is_honor());
    assert!(Tile::Simple(SimpleTile::new(Suit::Bamboo, 5)).as_honor().is_none());
    assert!(Tile::Wind(Wind::South).as_honor().is_some());
}

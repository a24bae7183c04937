//! Hand-level behavior: call precedence, the call matcher, and the
//! draw–discard cycle.

use mahjong::hand::{compare_calls, Call, DiscardError, HandState};
use mahjong::tile::{tile_set, SimpleTile, Suit, Tile, TileId, TileInstance, Wind};
use std::cmp::Ordering;

fn simple(suit: Suit, number: u8, id: u8) -> TileInstance {
    TileInstance { id: TileId(id), tile: Tile::Simple(SimpleTile { suit, number }) }
}

/// A thirteen-tile hand ending in the given tiles: the rest is padded with
/// unrelated honor tiles from the canonical set.
fn hand_with(mut interesting: Vec<TileInstance>) -> HandState {
    let full = tile_set();
    let mut tiles: Vec<TileInstance> = Vec::new();
    // Pad with winds (ids 120 on), which never form chows.
    let mut k = 0;
    while tiles.len() + interesting.len() < 13 {
        tiles.push(full[120 + k]);
        k += 1;
    }
    tiles.append(&mut interesting);
    HandState::new(&mut tiles)
}

#[test]
fn call_precedence() {
    // Grab the id and value of the first canonical tile as placeholder
    // values; precedence never reads them.
    let tiles = tile_set();
    let id = tiles[0].id;
    let tile = tiles[0].tile;

    // "Ron" has highest precedence.
    assert_eq!(
        compare_calls(Wind::East, Call::Ron, Wind::West, Call::Kan(tile), Wind::South),
        Ordering::Greater
    );
    assert_eq!(
        compare_calls(Wind::East, Call::Ron, Wind::West, Call::Pon(id, id), Wind::South),
        Ordering::Greater
    );
    assert_eq!(
        compare_calls(Wind::East, Call::Ron, Wind::West, Call::Chii(id, id), Wind::South),
        Ordering::Greater
    );

    // If both calls are "ron", the closest to the discarding player has
    // precedence.
    assert_eq!(
        compare_calls(Wind::East, Call::Ron, Wind::West, Call::Ron, Wind::North),
        Ordering::Greater
    );
    assert_eq!(
        compare_calls(Wind::East, Call::Ron, Wind::West, Call::Ron, Wind::South),
        Ordering::Less
    );

    // "Kan" has next highest.
    assert_eq!(
        compare_calls(Wind::East, Call::Kan(tile), Wind::West, Call::Pon(id, id), Wind::South),
        Ordering::Greater
    );
    assert_eq!(
        compare_calls(Wind::East, Call::Kan(tile), Wind::West, Call::Chii(id, id), Wind::South),
        Ordering::Greater
    );

    // "Pon" only has precedence over "chii".
    assert_eq!(
        compare_calls(Wind::East, Call::Pon(id, id), Wind::West, Call::Chii(id, id), Wind::South),
        Ordering::Greater
    );
}

#[test]
fn three_copies_offer_one_pon_and_one_kan() {
    // Three copies of coins-5 in hand (ids 16, 17, 18); the fourth copy
    // (id 19) is the discard.
    let hand = hand_with(vec![
        simple(Suit::Coins, 5, 16),
        simple(Suit::Coins, 5, 17),
        simple(Suit::Coins, 5, 18),
    ]);
    let discard = Tile::Simple(SimpleTile { suit: Suit::Coins, number: 5 });
    let calls = hand.find_possible_calls(discard, false);
    let pons = calls.iter().filter(|c| matches!(c, Call::Pon(..))).count();
    let kans = calls.iter().filter(|c| matches!(c, Call::Kan(..))).count();
    assert_eq!(pons, 1);
    assert_eq!(kans, 1);
    assert_eq!(calls.len(), 2);
    // The pon names the first two copies in hand order.
    assert_eq!(calls[0], Call::Pon(TileId(16), TileId(17)));
    assert_eq!(calls[1], Call::Kan(discard));
}

#[test]
fn two_copies_offer_only_pon() {
    let hand = hand_with(vec![
        simple(Suit::Coins, 5, 16),
        simple(Suit::Coins, 5, 17),
    ]);
    let discard = Tile::Simple(SimpleTile { suit: Suit::Coins, number: 5 });
    let calls = hand.find_possible_calls(discard, false);
    assert_eq!(calls, vec![Call::Pon(TileId(16), TileId(17))]);
}

#[test]
fn chii_candidates_deduplicate_by_value() {
    // Two physical copies of coins-2 (ids 4, 5) and one coins-3 (id 8):
    // both pairs complete 1-2-3, but players see one chii.
    let hand = hand_with(vec![
        simple(Suit::Coins, 2, 4),
        simple(Suit::Coins, 2, 5),
        simple(Suit::Coins, 3, 8),
    ]);
    let discard = Tile::Simple(SimpleTile { suit: Suit::Coins, number: 1 });
    let calls = hand.find_possible_calls(discard, true);
    assert_eq!(calls, vec![Call::Chii(TileId(4), TileId(8))]);
}

#[test]
fn chii_only_when_allowed() {
    // A chow-completing pair offers a chii only when the discard comes
    // from the seat to this player's left.
    let hand = hand_with(vec![
        simple(Suit::Coins, 2, 4),
        simple(Suit::Coins, 3, 8),
    ]);
    let discard = Tile::Simple(SimpleTile { suit: Suit::Coins, number: 4 });
    let with_chii = hand.find_possible_calls(discard, true);
    assert_eq!(with_chii, vec![Call::Chii(TileId(4), TileId(8))]);
    let without_chii = hand.find_possible_calls(discard, false);
    assert_eq!(without_chii, Vec::<Call>::new());
}

#[test]
fn draw_then_discard_moves_tile_to_pile() {
    let mut tiles = tile_set();
    let mut hand = HandState::new(&mut tiles);
    let drawn = tiles.pop().unwrap();
    hand.draw_tile(drawn).unwrap();
    // Discard a concealed tile: it lands on the pile and the draw merges
    // into the hand.
    let discard_id = hand.tiles()[0].id;
    hand.discard_tile(discard_id).unwrap();
    assert_eq!(hand.discards().last().unwrap().id, discard_id);
    assert_eq!(hand.tiles().len(), 13);
    assert!(hand.current_draw().is_none());
}

#[test]
fn discard_requires_a_draw() {
    let mut tiles = tile_set();
    let mut hand = HandState::new(&mut tiles);
    let id = hand.tiles()[0].id;
    assert_eq!(hand.discard_tile(id), Err(DiscardError::NoDraw));
}

#[test]
fn discard_rejects_foreign_tile() {
    let mut tiles = tile_set();
    let mut hand = HandState::new(&mut tiles);
    let drawn = tiles.pop().unwrap();
    hand.draw_tile(drawn).unwrap();
    // Id 0 sits at the bottom of the wall, not in this hand.
    assert_eq!(hand.discard_tile(TileId(0)), Err(DiscardError::NotInHand));
    // A failed discard leaves the draw in place.
    assert!(hand.current_draw().is_some());
}

#[test]
fn second_draw_is_rejected() {
    let mut tiles = tile_set();
    let mut hand = HandState::new(&mut tiles);
    let first = tiles.pop().unwrap();
    let second = tiles.pop().unwrap();
    hand.draw_tile(first).unwrap();
    assert!(hand.draw_tile(second).is_err());
}

#[test]
fn call_tile_builds_pong() {
    let hand_tiles = vec![
        simple(Suit::Coins, 5, 16),
        simple(Suit::Coins, 5, 17),
    ];
    let mut hand = hand_with(hand_tiles);
    let discard = simple(Suit::Coins, 5, 19);
    hand.call_tile(discard, Call::Pon(TileId(16), TileId(17))).unwrap();
    assert_eq!(hand.open_pongs().len(), 1);
    assert_eq!(hand.tiles().len(), 11);
    let meld = hand.open_pongs()[0];
    assert_eq!(meld.0.id, TileId(19));
    assert_eq!(meld.1.id, TileId(16));
    assert_eq!(meld.2.id, TileId(17));
}

#[test]
fn call_tile_rejects_missing_tiles() {
    let mut hand = hand_with(vec![simple(Suit::Coins, 5, 16)]);
    let discard = simple(Suit::Coins, 5, 19);
    let before = hand.tiles().clone();
    assert!(hand.call_tile(discard, Call::Pon(TileId(16), TileId(17))).is_err());
    assert_eq!(hand.tiles(), &before);
    assert_eq!(hand.open_pongs().len(), 0);
}

#[test]
fn call_tile_builds_kong_in_id_order() {
    let mut hand = hand_with(vec![
        simple(Suit::Coins, 5, 18),
        simple(Suit::Coins, 5, 16),
        simple(Suit::Coins, 5, 17),
    ]);
    let discard = simple(Suit::Coins, 5, 19);
    hand.call_tile(discard, Call::Kan(discard.tile)).unwrap();
    assert_eq!(hand.open_kongs().len(), 1);
    let meld = hand.open_kongs()[0];
    assert_eq!(meld.0.id, TileId(19));
    assert_eq!(meld.1.id, TileId(16));
    assert_eq!(meld.2.id, TileId(17));
    assert_eq!(meld.3.id, TileId(18));
    assert_eq!(hand.tiles().len(), 10);
}

#[test]
fn call_tile_rejects_broken_chow() {
    let mut hand = hand_with(vec![
        simple(Suit::Coins, 2, 4),
        simple(Suit::Coins, 7, 24),
    ]);
    let discard = simple(Suit::Coins, 1, 0);
    assert!(hand.call_tile(discard, Call::Chii(TileId(4), TileId(24))).is_err());
    assert_eq!(hand.open_chows().len(), 0);
}

#[test]
fn kan_needs_exactly_three_copies() {
    let mut hand = hand_with(vec![
        simple(Suit::Coins, 5, 16),
        simple(Suit::Coins, 5, 17),
    ]);
    let discard = simple(Suit::Coins, 5, 19);
    assert_eq!(
        hand.call_tile(discard, Call::Kan(discard.tile)),
        Err(mahjong::hand::CallInvalid::WrongMatchCount)
    );
    assert_eq!(hand.open_kongs().len(), 0);
    assert_eq!(hand.tiles().len(), 13);
}

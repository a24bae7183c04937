//! Match-level behavior: dealing, the turn state machine, call
//! resolution, and consistency of every client view with the match.

use mahjong::client::LocalState;
use mahjong::hand::Call;
use mahjong::match_state::{MatchError, MatchId, MatchState, PerSeat, TurnState, TurnStateKind};
use mahjong::tile::{tile_set, TileId, Wind};

fn winds() -> [Wind; 4] {
    Wind::all()
}

/// Verifies that the view of each client equals the projection of the
/// authoritative state for that seat.
fn assert_state_sync(state: &MatchState, locals: &[(Wind, LocalState)]) {
    for (seat, local) in locals.iter() {
        assert_eq!(state.local_state_for_player(*seat), *local);
        // The hand views in particular match the redaction rules.
        for hand_seat in winds() {
            let expected = state.player(hand_seat).to_local(hand_seat == *seat);
            assert_eq!(&expected, local.players.get(hand_seat));
        }
    }
}

// Test that the match state stays consistent when players discard tiles
// from their hands (i.e. not the tile they just drew), with every seat's
// client replaying the events alongside.
#[test]
fn discard_from_hand() {
    let mut state = MatchState::new(MatchId::new(0), tile_set());

    let mut locals: Vec<(Wind, LocalState)> = winds()
        .into_iter()
        .map(|seat| (seat, state.local_state_for_player(seat)))
        .collect();

    let mut current_player = Wind::East;
    let mut rounds = 0usize;
    while !state.wall.is_empty() {
        assert!(matches!(state.turn_state, TurnState::AwaitingDraw(p) if p == current_player));

        // Draw the tile for the current player.
        let draw = state.draw_for_player(current_player).unwrap().unwrap();
        for (seat, local) in locals.iter_mut() {
            if *seat == current_player {
                local.draw_local_tile(draw).unwrap();
            } else {
                local.draw_remote_tile(current_player).unwrap();
            }
        }
        assert_state_sync(&state, &locals);

        // Discard a tile from the hand (never the fresh draw).
        let discard = state.player(current_player).tiles()[0].id;
        state.discard_tile(current_player, discard).unwrap();
        for (_, local) in locals.iter_mut() {
            local.discard_tile(current_player, discard).unwrap();
        }

        // Verify that the player's hand is in the correct state after
        // discarding.
        let player = state.player(current_player);
        assert_eq!(
            13,
            player.tiles().len(),
            "Player has wrong number of tiles in hand"
        );
        assert!(
            player.current_draw().is_none(),
            "Player still has a current draw after discarding"
        );

        // If any players can call the discarded tile, have them pass. We
        // specifically DON'T want any of them to actually make a call
        // because that would change the turn order.
        if let TurnState::AwaitingCalls { .. } = &state.turn_state {
            assert_state_sync(&state, &locals);
            for seat in winds() {
                let waits = match &state.turn_state {
                    TurnState::AwaitingCalls { waiting, .. } => waiting.get(seat).is_some(),
                    _ => false,
                };
                if waits {
                    state.request_call(seat, None).unwrap();
                }
            }
            assert_eq!(None, state.decide_call().unwrap());
        }
        // Every client sees the pass and moves to the next draw.
        for (_, local) in locals.iter_mut() {
            local.decide_call(None).unwrap();
        }
        assert_state_sync(&state, &locals);

        current_player = current_player.next();
        rounds += 1;
    }

    // The wall held 84 tiles after the deal: every seat took exactly 21
    // turns, and East is to draw again.
    assert_eq!(rounds, 84);
    assert!(matches!(state.turn_state, TurnState::AwaitingDraw(Wind::East)));
}

#[test]
fn deal_gives_thirteen_each_from_the_tail() {
    let state = MatchState::new(MatchId::new(7), tile_set());
    assert_eq!(state.id().raw(), 7);
    assert_eq!(state.wall.len(), 84);
    for seat in winds() {
        assert_eq!(state.player(seat).tiles().len(), 13);
        assert!(state.player(seat).current_draw().is_none());
    }
    // East is dealt first, from the tail of the shuffled tiles.
    assert_eq!(state.player(Wind::East).tiles()[12].id, TileId(135));
    assert_eq!(state.player(Wind::East).tiles()[0].id, TileId(123));
    assert_eq!(state.player(Wind::South).tiles()[0].id, TileId(110));
    assert!(matches!(state.turn_state, TurnState::AwaitingDraw(Wind::East)));
}

#[test]
fn draw_out_of_turn_is_rejected() {
    let mut state = MatchState::new(MatchId::new(0), tile_set());
    let r = state.draw_for_player(Wind::South);
    assert_eq!(
        r,
        Err(MatchError::InvalidAction {
            expected: TurnStateKind::AwaitingDraw,
            actual: TurnStateKind::AwaitingDraw,
        })
    );
}

#[test]
fn discard_out_of_turn_is_rejected() {
    let mut state = MatchState::new(MatchId::new(0), tile_set());
    let id = state.player(Wind::East).tiles()[0].id;
    let r = state.discard_tile(Wind::East, id);
    assert!(matches!(r, Err(MatchError::InvalidAction { .. })));
}

#[test]
fn empty_wall_ends_the_match() {
    let mut state = MatchState::new(MatchId::new(0), tile_set());
    assert_eq!(state.wall.len(), 84);
    // Exhaust the wall: every seat draws and discards its draw.
    let mut seat = Wind::East;
    for _ in 0..84 {
        let draw = state.draw_for_player(seat).unwrap().unwrap();
        state.discard_tile(seat, draw).unwrap();
        // Everyone who could call passes.
        loop {
            let waiting_seat = match &state.turn_state {
                TurnState::AwaitingCalls { waiting, .. } => {
                    winds().into_iter().find(|q| waiting.get(*q).is_some())
                }
                _ => None,
            };
            match waiting_seat {
                Some(q) => {
                    state.request_call(q, None).unwrap();
                }
                None => break,
            }
        }
        if matches!(state.turn_state, TurnState::AwaitingCalls { .. }) {
            state.decide_call().unwrap();
        }
        seat = seat.next();
    }
    assert_eq!(state.wall.len(), 0);
    // The next draw finds the wall empty: the match ends with no winner.
    let r = state.draw_for_player(seat).unwrap();
    assert_eq!(r, None);
    assert!(matches!(state.turn_state, TurnState::MatchEnded { winner: None }));
}

/// The seeded layout for the pon scenario: East's first draw is the first
/// copy of coins-1, and South holds the second and third copies.
fn pon_scenario_tiles() -> Vec<mahjong::tile::TileInstance> {
    let mut tiles = tile_set();
    // Position 83 is the top of the wall after dealing; positions
    // 110 and 111 land in South's hand.
    tiles.swap(83, 0);
    tiles.swap(110, 1);
    tiles.swap(111, 2);
    tiles
}

// Seed so East's discard is exactly a tile for which South holds two
// copies; South pons it and play continues left of South.
#[test]
fn pon_call_resolves_to_caller() {
    let mut state = MatchState::new(MatchId::new(0), pon_scenario_tiles());

    let draw = state.draw_for_player(Wind::East).unwrap().unwrap();
    assert_eq!(draw, TileId(0));
    state.discard_tile(Wind::East, draw).unwrap();

    // Only South may act, and only with the one pon.
    match &state.turn_state {
        TurnState::AwaitingCalls { discarding_player, discard, waiting, .. } => {
            assert_eq!(*discarding_player, Wind::East);
            assert_eq!(*discard, TileId(0));
            assert_eq!(
                waiting.get(Wind::South),
                &Some(vec![Call::Pon(TileId(1), TileId(2))])
            );
            assert!(waiting.get(Wind::West).is_none());
            assert!(waiting.get(Wind::North).is_none());
        }
        other => panic!("unexpected turn state: {:?}", other),
    }

    let done = state
        .request_call(Wind::South, Some(Call::Pon(TileId(1), TileId(2))))
        .unwrap();
    assert!(done);
    let outcome = state.decide_call().unwrap();
    assert_eq!(outcome, Some((Wind::South, Call::Pon(TileId(1), TileId(2)))));

    // South's pong is open, East's discard is gone, and West draws next.
    assert_eq!(state.player(Wind::South).open_pongs().len(), 1);
    assert_eq!(state.player(Wind::South).tiles().len(), 11);
    assert_eq!(state.player(Wind::East).discards().len(), 0);
    assert!(matches!(state.turn_state, TurnState::AwaitingDraw(Wind::West)));
}

// Two seats call ron on the same discard; the seat closer in turn order
// to the discarder wins the head bump.
#[test]
fn head_bump_on_double_ron() {
    let mut state = MatchState::new(MatchId::new(0), tile_set());
    let draw = state.draw_for_player(Wind::East).unwrap().unwrap();
    state.discard_tile(Wind::East, draw).unwrap();
    let discard_id = state.player(Wind::East).discards().last().unwrap().id;

    // Both South and West claim the win on East's discard.
    state.turn_state = TurnState::AwaitingCalls {
        discarding_player: Wind::East,
        discard: discard_id,
        calls: PerSeat {
            east: None,
            south: Some(Call::Ron),
            west: Some(Call::Ron),
            north: None,
        },
        waiting: PerSeat { east: None, south: None, west: None, north: None },
    };

    let outcome = state.decide_call().unwrap();
    // South sits closer to East than West does: South wins the head bump.
    assert_eq!(outcome, Some((Wind::South, Call::Ron)));
    assert!(matches!(state.turn_state, TurnState::AwaitingDraw(Wind::West)));
}

// Chii eligibility: a seat may chii only when the discarder sits to its
// left, i.e. when it is next in turn order after the discarder.
#[test]
fn chii_only_from_left() {
    let mut tiles = tile_set();
    // North's hand takes positions 84..97. Give North the second and
    // third copies of coins-2 and coins-3 (ids 5, 9) so a coins-1
    // discard completes a chow; West's first draw (position 81, third
    // from the tail after dealing) is the first copy of coins-1.
    tiles.swap(84, 5);
    tiles.swap(85, 9);
    tiles.swap(81, 0);
    let mut state = MatchState::new(MatchId::new(0), tiles);

    // Walk the turn to West without anyone calling: East and South draw
    // and discard their own draws (winds and dragons nobody wants).
    for seat in [Wind::East, Wind::South] {
        let draw = state.draw_for_player(seat).unwrap().unwrap();
        state.discard_tile(seat, draw).unwrap();
        loop {
            let waiting_seat = match &state.turn_state {
                TurnState::AwaitingCalls { waiting, .. } => {
                    winds().into_iter().find(|q| waiting.get(*q).is_some())
                }
                _ => None,
            };
            match waiting_seat {
                Some(q) => {
                    state.request_call(q, None).unwrap();
                }
                None => break,
            }
        }
        if matches!(state.turn_state, TurnState::AwaitingCalls { .. }) {
            state.decide_call().unwrap();
        }
    }

    // West draws the coins-1 and discards it; North, seated next after
    // West, may chii.
    let draw = state.draw_for_player(Wind::West).unwrap().unwrap();
    assert_eq!(draw, TileId(0));
    state.discard_tile(Wind::West, draw).unwrap();
    match &state.turn_state {
        TurnState::AwaitingCalls { waiting, .. } => {
            let north = waiting.get(Wind::North).as_ref().expect("North must be able to chii");
            assert!(north.contains(&Call::Chii(TileId(5), TileId(9))));
            // The seats that are not next after West get no chii offer.
            for q in [Wind::East, Wind::South] {
                if let Some(calls) = waiting.get(q) {
                    assert!(calls.iter().all(|c| !matches!(c, Call::Chii(..))));
                }
            }
        }
        other => panic!("unexpected turn state: {:?}", other),
    }
}

#[test]
fn call_phase_errors_are_reported() {
    let mut state = MatchState::new(MatchId::new(0), pon_scenario_tiles());
    let draw = state.draw_for_player(Wind::East).unwrap().unwrap();

    // Registering a call outside the call phase is rejected.
    assert!(matches!(
        state.call_tile(Wind::South, None),
        Err(MatchError::InvalidAction { .. })
    ));

    state.discard_tile(Wind::East, draw).unwrap();

    // Deciding while South still has to answer is rejected.
    assert_eq!(state.decide_call(), Err(MatchError::StillWaiting));
    // A seat that cannot call may not answer.
    assert_eq!(state.call_tile(Wind::West, None), Err(MatchError::NotWaiting));
    // A call that was never offered is rejected.
    assert_eq!(
        state.call_tile(Wind::South, Some(Call::Kan(mahjong::tile::by_id(TileId(0))))),
        Err(MatchError::CallNotAllowed)
    );
    // The one offered call still goes through.
    assert!(state
        .request_call(Wind::South, Some(Call::Pon(TileId(1), TileId(2))))
        .unwrap());
}

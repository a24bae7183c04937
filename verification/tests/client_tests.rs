//! Client-side behavior: replaying events, projection fidelity, the
//! information-hiding boundary, and the controller around them.

use mahjong::client::{LocalHand, LocalState, LocalTurnState, RemoteHand};
use mahjong::controller::{dummy_action, DummyAction, MatchController};
use mahjong::hand::{Call, HandState};
use mahjong::match_state::{MatchId, MatchState, PerSeat, TurnState};
use mahjong::messages::{
    versions_compatible, AccountState, ClientState, FinalCall, HandshakeResponse, MatchEvent,
    ProtocolVersion,
};
use mahjong::tile::{tile_set, TileId, Wind};

fn fresh_local_state(seat: Wind) -> LocalState {
    let mut tiles = tile_set();
    let own = HandState::new(&mut tiles);
    let hand_for = |q: Wind| {
        if q == seat {
            LocalHand::Local(own.clone())
        } else {
            LocalHand::Remote(RemoteHand::new())
        }
    };
    LocalState {
        id: MatchId::new(0),
        seat,
        players: PerSeat {
            east: hand_for(Wind::East),
            south: hand_for(Wind::South),
            west: hand_for(Wind::West),
            north: hand_for(Wind::North),
        },
        turn_state: LocalTurnState::AwaitingDraw(seat),
    }
}

// Check that `LocalState::handle_event` is deferring to the more specific
// event handling functions: each event kind drives the same transitions
// as the direct calls.
#[test]
fn local_state_handle_event_defers_to_other_functions() {
    let tiles = tile_set();
    let mut state = fresh_local_state(Wind::East);

    let _ = state.handle_event(&MatchEvent::Call(FinalCall {
        called_from: Wind::South,
        discard: tiles[0].id,
        caller: Wind::East,
        winning_call: Call::Kan(tiles[0].tile),
    }));

    let _ = state.handle_event(&MatchEvent::LocalDraw { seat: Wind::East, tile: tiles[0].id });
    assert_eq!(state.turn_state, LocalTurnState::AwaitingDiscard(Wind::East));

    let mut other = fresh_local_state(Wind::East);
    other.turn_state = LocalTurnState::AwaitingDraw(Wind::South);
    let _ = other.handle_event(&MatchEvent::RemoteDraw { seat: Wind::South });
    assert_eq!(other.turn_state, LocalTurnState::AwaitingDiscard(Wind::South));

    let _ = state.handle_event(&MatchEvent::TileDiscarded {
        seat: Wind::East,
        tile: tiles[0].id,
        calls: Vec::new(),
    });
}

// Check that `LocalState` always enters the `AwaitingCalls` turn state
// after a player discards, even if the local player can't call the
// discarded tile.
#[test]
fn local_state_awaits_calls_after_discard() {
    let tiles = tile_set();
    let mut state = fresh_local_state(Wind::East);
    state.turn_state = LocalTurnState::AwaitingDraw(Wind::South);

    state.draw_remote_tile(Wind::South).unwrap();
    state.discard_tile(Wind::South, tiles[0].id).unwrap();

    let expected = LocalTurnState::AwaitingCalls {
        calls: vec![],
        discard: tiles[0].id,
        discarding_player: Wind::South,
    };
    assert_eq!(expected, state.turn_state);
}

#[test]
fn replayed_discard_lands_on_the_pile() {
    let mut state = fresh_local_state(Wind::East);
    let draw_id = TileId(83);
    state.handle_event(&MatchEvent::LocalDraw { seat: Wind::East, tile: draw_id }).unwrap();
    // Discard the drawn tile: the own pile must end in it.
    state
        .handle_event(&MatchEvent::TileDiscarded {
            seat: Wind::East,
            tile: draw_id,
            calls: Vec::new(),
        })
        .unwrap();
    let own = state.local_hand(Wind::East);
    assert_eq!(own.discards().last().unwrap().id, draw_id);
}

#[test]
fn mismatched_events_are_consistency_errors() {
    let mut state = fresh_local_state(Wind::East);
    // A remote draw for the own seat can never be right.
    assert!(state.handle_event(&MatchEvent::RemoteDraw { seat: Wind::East }).is_err());
    // A discard before any draw diverged.
    assert!(state
        .handle_event(&MatchEvent::TileDiscarded {
            seat: Wind::East,
            tile: TileId(0),
            calls: Vec::new(),
        })
        .is_err());
    // A draw for a seat that is not to move diverged.
    assert!(state.handle_event(&MatchEvent::RemoteDraw { seat: Wind::West }).is_err());
}

// A remote discard with no draw shown comes straight from the concealed
// tiles: the count drops by one and the tile lands on the pile.
#[test]
fn remote_discard_without_shown_draw_comes_from_concealed() {
    let mut state = fresh_local_state(Wind::East);
    state.turn_state = LocalTurnState::AwaitingDiscard(Wind::South);
    state.discard_tile(Wind::South, TileId(0)).unwrap();
    match state.players.get(Wind::South) {
        LocalHand::Remote(h) => {
            assert_eq!(h.tiles, 12);
            assert!(!h.has_current_draw);
            assert_eq!(h.discards.last().unwrap().id, TileId(0));
        }
        LocalHand::Local(_) => panic!("South must be remote"),
    }
    assert!(matches!(state.turn_state, LocalTurnState::AwaitingCalls { .. }));
}

/// The seeded layout for the pon scenario: East's first draw is the first
/// copy of coins-1, and South holds the second and third copies.
fn pon_scenario_controller() -> MatchController {
    let mut tiles = tile_set();
    tiles.swap(83, 0);
    tiles.swap(110, 1);
    tiles.swap(111, 2);
    MatchController {
        state: MatchState::new(MatchId::new(0), tiles),
        occupied: PerSeat { east: true, south: true, west: true, north: true },
        num_players: 4,
    }
}

// Projection fidelity along the pon scenario: after every delivered
// event, East's replayed view equals the projection of the authoritative
// state — and after the call, South's redacted hand shows two fewer
// concealed tiles and one more open pong.
#[test]
fn projection_fidelity_through_a_pon() {
    let mut controller = pon_scenario_controller();

    let mut views: Vec<(Wind, LocalState)> = [Wind::East, Wind::South, Wind::West, Wind::North]
        .into_iter()
        .map(|seat| (seat, controller.state.local_state_for_player(seat)))
        .collect();

    let mut deliver = |views: &mut Vec<(Wind, LocalState)>, events: Vec<(Wind, MatchEvent)>| {
        for (to, event) in events {
            for (seat, view) in views.iter_mut() {
                if *seat == to {
                    view.handle_event(&event).unwrap();
                }
            }
        }
    };

    let events = controller.start_match().unwrap();
    deliver(&mut views, events);
    for (seat, view) in views.iter() {
        assert_eq!(controller.state.local_state_for_player(*seat), *view);
    }

    let before_pon_tiles = match views[0].1.players.get(Wind::South) {
        LocalHand::Remote(h) => h.tiles,
        LocalHand::Local(_) => panic!("South must be remote for East"),
    };

    let events = controller.discard_tile(Wind::East, TileId(0)).unwrap();
    deliver(&mut views, events);
    for (seat, view) in views.iter() {
        assert_eq!(controller.state.local_state_for_player(*seat), *view);
    }

    let events = controller
        .call_tile(Wind::South, Some(Call::Pon(TileId(1), TileId(2))))
        .unwrap();
    deliver(&mut views, events);
    for (seat, view) in views.iter() {
        assert_eq!(controller.state.local_state_for_player(*seat), *view);
    }

    // East's redacted view of South: two concealed tiles went into the
    // pong.
    match views[0].1.players.get(Wind::South) {
        LocalHand::Remote(h) => {
            assert_eq!(h.tiles, before_pon_tiles - 2);
            assert_eq!(h.open_pongs.len(), 1);
        }
        LocalHand::Local(_) => panic!("South must be remote for East"),
    }
}

// Information hiding: the `TileDiscarded` delivered to West carries no
// calls even though the authoritative state holds a waiting entry for
// South; West still walks through its call phase and realigns on the
// final call.
#[test]
fn information_hiding_on_discard() {
    let mut controller = pon_scenario_controller();
    let mut west_view = controller.state.local_state_for_player(Wind::West);

    let events = controller.start_match().unwrap();
    for (to, event) in &events {
        if *to == Wind::West {
            west_view.handle_event(event).unwrap();
        }
    }

    let events = controller.discard_tile(Wind::East, TileId(0)).unwrap();
    // The authoritative state is waiting on South.
    match &controller.state.turn_state {
        TurnState::AwaitingCalls { waiting, .. } => {
            assert!(waiting.get(Wind::South).is_some());
        }
        other => panic!("unexpected turn state: {:?}", other),
    }
    // Yet West is told nothing beyond its own (empty) options.
    let mut saw_discard = false;
    for (to, event) in &events {
        if *to == Wind::West {
            if let MatchEvent::TileDiscarded { calls, .. } = event {
                saw_discard = true;
                assert_eq!(calls, &Vec::<Call>::new());
            }
            west_view.handle_event(event).unwrap();
        }
    }
    assert!(saw_discard);
    assert!(matches!(west_view.turn_state, LocalTurnState::AwaitingCalls { .. }));

    // After the final call is broadcast, West advances correctly.
    let events = controller
        .call_tile(Wind::South, Some(Call::Pon(TileId(1), TileId(2))))
        .unwrap();
    for (to, event) in &events {
        if *to == Wind::West {
            west_view.handle_event(event).unwrap();
        }
    }
    assert_eq!(controller.state.local_state_for_player(Wind::West), west_view);
}

// A full computer-driven match: four dummy seats play by the fixed policy
// until the wall runs out, with every view replayed along the way.
#[test]
fn dummy_players_finish_a_match() {
    let mut controller = MatchController::new(MatchId::new(1), 0, 42);
    let mut views: Vec<(Wind, LocalState)> = [Wind::East, Wind::South, Wind::West, Wind::North]
        .into_iter()
        .map(|seat| (seat, controller.state.local_state_for_player(seat)))
        .collect();

    let mut pending = controller.start_match().unwrap();
    let mut steps = 0usize;
    let mut ended = false;
    loop {
        steps += 1;
        assert!(steps < 4000, "the match must end");
        for (to, event) in pending.drain(..) {
            if matches!(event, MatchEvent::MatchEnded { .. }) {
                ended = true;
            }
            for (seat, view) in views.iter_mut() {
                if *seat == to {
                    view.handle_event(&event).unwrap();
                }
            }
        }
        if ended {
            break;
        }
        // One seat discards by the dummy policy...
        let mut next: Vec<(Wind, MatchEvent)> = Vec::new();
        for (seat, view) in views.iter() {
            if let Some(DummyAction::Discard(tile)) = dummy_action(view, *seat) {
                next = controller.discard_tile(*seat, tile).unwrap();
                break;
            }
        }
        // ... or every waiting seat answers the call phase, submitting its
        // first call when it has one and passing otherwise.
        if next.is_empty() {
            loop {
                let q = match &controller.state.turn_state {
                    TurnState::AwaitingCalls { waiting, .. } => {
                        [Wind::East, Wind::South, Wind::West, Wind::North]
                            .into_iter()
                            .find(|q| waiting.get(*q).is_some())
                    }
                    _ => None,
                };
                let q = match q {
                    Some(q) => q,
                    None => break,
                };
                let mut submit: Option<Call> = None;
                for (seat, view) in views.iter() {
                    if *seat == q {
                        if let Some(DummyAction::SubmitCall(c)) = dummy_action(view, q) {
                            submit = Some(c);
                        }
                    }
                }
                next = controller.call_tile(q, submit).unwrap();
            }
        }
        assert!(!next.is_empty(), "the match stalled");
        pending = next;
    }
    assert!(ended, "the wall must run out");
}

#[test]
fn client_account_state_roundtrip() {
    let mut client = ClientState::new();
    client.set_credentials(9, String::from("token"));
    assert_eq!(client.account_id().0, 9);

    let response = HandshakeResponse {
        server_version: ProtocolVersion { major: 0, minor: 1, patch: 0 },
        new_credentials: None,
        account_data: AccountState { points: 10_000 },
    };
    client.handle_handshake_response(response);
    assert_eq!(client.points(), 10_000);

    let request = client.create_handshake_request(ProtocolVersion { major: 0, minor: 1, patch: 0 });
    assert!(request.credentials.is_some());
}

#[test]
fn version_policy_is_exact_match() {
    let a = ProtocolVersion { major: 0, minor: 2, patch: 1 };
    let b = ProtocolVersion { major: 0, minor: 2, patch: 1 };
    let c = ProtocolVersion { major: 0, minor: 3, patch: 1 };
    assert!(versions_compatible(a, b));
    assert!(!versions_compatible(a, c));
}

#[test]
fn join_fills_seats_once() {
    let mut controller = MatchController::new(MatchId::new(3), 2, 7);
    let (view, start) = controller.join(Wind::East).unwrap();
    assert_eq!(view.seat(), Wind::East);
    assert!(!start);
    // The same seat cannot be taken twice.
    assert!(controller.join(Wind::East).is_err());
    // The table is full once the expected number of players sat down.
    let (_, start) = controller.join(Wind::South).unwrap();
    assert!(start);
}

#[test]
fn seeded_shuffle_rearranges_the_deal() {
    // With the identity arrangement East would hold the last thirteen ids
    // in order; a shuffled match must deal something else.
    let controller = MatchController::new(MatchId::new(5), 0, 42);
    let east = controller.state.player(Wind::East);
    let canonical_tail: Vec<u8> = (123u8..136).collect();
    let dealt: Vec<u8> = east.tiles().iter().map(|t| t.id.0).collect();
    assert_ne!(dealt, canonical_tail);
    // Whatever the order, the match still holds 84 wall tiles and four
    // thirteen-tile hands.
    assert_eq!(controller.state.wall.len(), 84);
}

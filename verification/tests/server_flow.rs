use networking::components::{MoveEvent, PlayableCharacter};
use networking::server::{FromClient, ServerEvent, ServerWorld};

#[test]
fn lifecycle_count_matches_connected_ids() {
    let mut w = ServerWorld::new();
    let events = vec![
        ServerEvent::ClientConnected { client_id: 1 },
        ServerEvent::ClientConnected { client_id: 2 },
        ServerEvent::ClientConnected { client_id: 3 },
        ServerEvent::ClientDisconnected { client_id: 2 },
    ];
    w.server_event(&events);
    assert_eq!(w.players.len(), 2);
    assert_eq!(w.players[0].id.0, 1);
    assert_eq!(w.players[1].id.0, 3);
}

#[test]
fn connected_record_starts_at_default() {
    let mut w = ServerWorld::new();
    w.connect_client(11);
    assert_eq!(w.players.len(), 1);
    assert_eq!(w.players[0].id.0, 11);
    assert_eq!(w.players[0].character.position, (0, 0, 0));
    assert_eq!(w.players[0].character.name, String::new());
    assert_eq!(w.players[0].character.power_level, 0);
}

#[test]
fn disconnect_for_unknown_id_is_a_noop() {
    let mut w = ServerWorld::new();
    w.connect_client(1);
    let events = vec![ServerEvent::ClientDisconnected { client_id: 9 }];
    w.server_event(&events);
    assert_eq!(w.players.len(), 1);
    assert_eq!(w.players[0].id.0, 1);
}

#[test]
fn disconnect_removes_every_matching_record() {
    let mut w = ServerWorld::new();
    w.connect_client(5);
    w.connect_client(5);
    w.disconnect_client(5);
    assert_eq!(w.players.len(), 0);
}

#[test]
fn repeated_forward_intents_integrate_linearly() {
    let mut w = ServerWorld::new();
    w.connect_client(4);
    let intents = vec![FromClient { client_id: 4, event: MoveEvent { forward: 1, right: 0 } }];
    for _ in 0..5 {
        w.handle_move_events(&intents, 16);
    }
    // 5 ticks x 25 units/s x 16 ms = 2000 thousandths of a unit forward.
    assert_eq!(w.players[0].character.position, (0, 0, 2000));
}

#[test]
fn server_integrates_intent_for_connection_seven() {
    let mut w = ServerWorld::new();
    w.connect_client(7);
    let intents = vec![FromClient { client_id: 7, event: MoveEvent { forward: 1, right: 0 } }];
    // 0.1 s at 25 units/s moves 2.5 units: 2500 thousandths.
    w.handle_move_events(&intents, 100);
    assert_eq!(w.players[0].character.position, (0, 0, 2500));
}

#[test]
fn right_intent_moves_the_first_axis() {
    let mut w = ServerWorld::new();
    w.connect_client(3);
    let intents = vec![FromClient { client_id: 3, event: MoveEvent { forward: 0, right: 1 } }];
    w.handle_move_events(&intents, 100);
    assert_eq!(w.players[0].character.position, (2500, 0, 0));
}

#[test]
fn stale_intent_is_dropped_without_mutation() {
    let mut w = ServerWorld::new();
    w.connect_client(1);
    let intents = vec![FromClient { client_id: 9, event: MoveEvent { forward: 1, right: 1 } }];
    w.handle_move_events(&intents, 100);
    assert_eq!(w.players.len(), 1);
    assert_eq!(w.players[0].id.0, 1);
    assert_eq!(w.players[0].character.position, (0, 0, 0));
}

#[test]
fn intents_within_one_tick_apply_additively() {
    let mut w = ServerWorld::new();
    w.connect_client(2);
    let intents = vec![
        FromClient { client_id: 2, event: MoveEvent { forward: 1, right: 0 } },
        FromClient { client_id: 2, event: MoveEvent { forward: 1, right: 0 } },
    ];
    w.handle_move_events(&intents, 10);
    assert_eq!(w.players[0].character.position, (0, 0, 500));
}

#[test]
fn only_the_matching_record_moves() {
    let mut w = ServerWorld::new();
    w.connect_client(1);
    w.connect_client(2);
    let intents = vec![FromClient { client_id: 2, event: MoveEvent { forward: -1, right: 0 } }];
    w.handle_move_events(&intents, 40);
    assert_eq!(w.players[0].character.position, (0, 0, 0));
    assert_eq!(w.players[1].character.position, (0, 0, -1000));
}

#[test]
fn defaults_are_neutral() {
    let c = PlayableCharacter::default();
    assert_eq!(c.position, (0, 0, 0));
    assert_eq!(c.name, String::new());
    assert_eq!(c.power_level, 0);
    let e = MoveEvent::default();
    assert_eq!(e, MoveEvent { forward: 0, right: 0 });
}

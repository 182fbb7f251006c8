use networking::client::{handle_create_event, update_pc};
use networking::components::{MoveEvent, PlayableCharacter, PlayerID};
use networking::input::send_move_event;
use networking::server::PlayerRecord;

fn record(id: u64, position: (i64, i64, i64)) -> PlayerRecord {
    PlayerRecord {
        id: PlayerID(id),
        character: PlayableCharacter { position, name: String::new(), power_level: 0 },
    }
}

#[test]
fn all_neutral_input_emits_nothing() {
    assert_eq!(send_move_event(false, false, false, false), None);
}

#[test]
fn single_key_mappings() {
    assert_eq!(send_move_event(true, false, false, false), Some(MoveEvent { forward: 1, right: 0 }));
    assert_eq!(send_move_event(false, true, false, false), Some(MoveEvent { forward: -1, right: 0 }));
    assert_eq!(send_move_event(false, false, true, false), Some(MoveEvent { forward: 0, right: -1 }));
    assert_eq!(send_move_event(false, false, false, true), Some(MoveEvent { forward: 0, right: 1 }));
}

#[test]
fn opposite_keys_resolve_to_last_mapping() {
    // Forward and back held together: the back mapping is applied last.
    assert_eq!(send_move_event(true, true, false, false), Some(MoveEvent { forward: -1, right: 0 }));
    // Left and right held together: the right mapping is applied last.
    assert_eq!(send_move_event(false, false, true, true), Some(MoveEvent { forward: 0, right: 1 }));
}

#[test]
fn diagonal_input_sets_both_axes() {
    assert_eq!(send_move_event(true, false, false, true), Some(MoveEvent { forward: 1, right: 1 }));
}

#[test]
fn creation_hook_fires_once_per_record() {
    let mut seen: Vec<u64> = Vec::new();
    let records = vec![record(1, (0, 0, 0)), record(2, (0, 0, 0))];
    let first = handle_create_event(&mut seen, &records);
    assert_eq!(first, vec![1, 2]);
    let second = handle_create_event(&mut seen, &records);
    assert_eq!(second, Vec::<u64>::new());
    let grown = vec![record(1, (0, 0, 0)), record(2, (0, 0, 0)), record(3, (0, 0, 0))];
    let third = handle_create_event(&mut seen, &grown);
    assert_eq!(third, vec![3]);
    assert_eq!(seen, vec![1, 2, 3]);
}

#[test]
fn transforms_mirror_replicated_positions() {
    let records = vec![record(1, (10, 20, 30)), record(2, (-5, 0, 2500))];
    let transforms = update_pc(&records);
    assert_eq!(transforms, vec![(10, 20, 30), (-5, 0, 2500)]);
}

use region_networking::dispatch::{AttributeKind, Message};
use region_networking::engine::Engine;
use region_networking::order::Coord;

/// Partition ids for a grid: 1000 + 100 * (y + 10) + (x + 10).
fn id_at(x: i32, y: i32) -> u64 {
    (1000 + 100 * (y + 10) + (x + 10)) as u64
}

fn grid(engine: &mut Engine, lo: i32, hi: i32) {
    for y in lo..=hi {
        for x in lo..=hi {
            engine.register_partition(Coord::new(x, y), id_at(x, y));
        }
    }
}

fn load(o: u64, x: i32, y: i32) -> Message {
    Message::LoadRegion { observer: o, coord: Coord::new(x, y) }
}

fn unload(o: u64, x: i32, y: i32) -> Message {
    Message::UnloadRegion { observer: o, coord: Coord::new(x, y) }
}

#[test]
fn window_shift_loads_one_column_and_unloads_another() {
    let mut engine = Engine::new(1);
    grid(&mut engine, -3, 3);
    engine.connect_observer(7, 70);
    let mut out = Vec::new();
    engine.move_observer(7, Coord::new(0, 0), &mut out);
    assert_eq!(out.len(), 9);
    assert!(out.iter().all(|m| matches!(m, Message::LoadRegion { observer: 7, .. })));
    out.clear();
    engine.move_observer(7, Coord::new(1, 0), &mut out);
    assert_eq!(
        out,
        vec![
            load(7, 2, -1),
            load(7, 2, 0),
            load(7, 2, 1),
            unload(7, -1, -1),
            unload(7, -1, 0),
            unload(7, -1, 1),
        ]
    );
    let mut expected = Vec::new();
    for y in -1..=1 {
        for x in 0..=2 {
            expected.push(Coord::new(x, y));
        }
    }
    assert_eq!(engine.window_of(7), expected);
    for y in -1..=1 {
        assert_eq!(engine.observers_of(id_at(-1, y)), Vec::<u64>::new());
        for x in 0..=2 {
            assert_eq!(engine.observers_of(id_at(x, y)), vec![7]);
        }
    }
}

#[test]
fn moving_within_the_same_window_says_nothing() {
    let mut engine = Engine::new(1);
    grid(&mut engine, -2, 2);
    let mut out = Vec::new();
    engine.move_observer(3, Coord::new(0, 0), &mut out);
    out.clear();
    engine.move_observer(3, Coord::new(0, 0), &mut out);
    assert!(out.is_empty());
}

#[test]
fn unregistered_coordinates_are_skipped() {
    let mut engine = Engine::new(1);
    engine.register_partition(Coord::new(0, 0), 1);
    let mut out = Vec::new();
    engine.move_observer(3, Coord::new(0, 0), &mut out);
    assert_eq!(out, vec![load(3, 0, 0)]);
    assert_eq!(engine.window_of(3).len(), 9);
}

#[test]
fn entity_move_notifies_only_the_difference() {
    let mut engine = Engine::new(1);
    let a: u64 = 1;
    let b: u64 = 2;
    let c = Coord::new(0, 0);
    let mut out = Vec::new();
    for o in [1u64, 2, 3] {
        assert!(engine.load_region(o, a, c, &mut out));
    }
    for o in [2u64, 3, 4] {
        assert!(engine.load_region(o, b, c, &mut out));
    }
    assert_eq!(engine.update_occupant(100, a, &mut out), None);
    out.clear();
    assert_eq!(engine.update_occupant(100, b, &mut out), Some(a));
    assert_eq!(
        out,
        vec![
            Message::Despawn { observer: 1, entity: 100 },
            Message::Spawn { observer: 4, entity: 100 },
        ]
    );
    assert_eq!(engine.location_of(100), Some(b));
    assert_eq!(engine.occupants_of(a), Vec::<u64>::new());
    assert_eq!(engine.occupants_of(b), vec![100]);
}

#[test]
fn fresh_spawn_goes_to_every_observer() {
    let mut engine = Engine::new(1);
    let mut out = Vec::new();
    engine.load_region(5, 9, Coord::new(0, 0), &mut out);
    engine.load_region(2, 9, Coord::new(0, 0), &mut out);
    out.clear();
    assert_eq!(engine.update_occupant(30, 9, &mut out), None);
    assert_eq!(
        out,
        vec![
            Message::Spawn { observer: 2, entity: 30 },
            Message::Spawn { observer: 5, entity: 30 },
        ]
    );
    out.clear();
    assert_eq!(engine.update_occupant(30, 9, &mut out), Some(9));
    assert!(out.is_empty());
}

#[test]
fn disconnect_despawns_every_pair_once() {
    let mut engine = Engine::new(1);
    let coords = [Coord::new(0, 0), Coord::new(1, 0), Coord::new(0, 1)];
    let ids = [11u64, 12, 13];
    for i in 0..3 {
        engine.register_partition(coords[i], ids[i]);
    }
    let mut out = Vec::new();
    engine.update_occupant(101, 11, &mut out);
    engine.update_occupant(102, 11, &mut out);
    engine.update_occupant(103, 12, &mut out);
    engine.update_occupant(104, 13, &mut out);
    engine.update_occupant(105, 13, &mut out);
    engine.update_occupant(106, 13, &mut out);
    engine.connect_observer(9, 900);
    engine.load_region(8, 12, coords[1], &mut out);
    engine.move_observer(9, Coord::new(0, 0), &mut out);
    out.clear();
    engine.disconnect_observer(9, &mut out);
    let despawns: Vec<(u64, u64)> = out
        .iter()
        .filter_map(|m| match m {
            Message::Despawn { observer, entity } => Some((*observer, *entity)),
            _ => None,
        })
        .collect();
    assert_eq!(despawns.len(), 6);
    for e in 101u64..=106 {
        assert_eq!(despawns.iter().filter(|p| **p == (9, e)).count(), 1);
    }
    assert_eq!(out.iter().filter(|m| matches!(m, Message::UnloadRegion { observer: 9, .. })).count(), 3);
    assert_eq!(out.len(), 9);
    for id in ids {
        assert!(!engine.observers_of(id).contains(&9));
    }
    assert_eq!(engine.observers_of(12), vec![8]);
    assert!(engine.window_of(9).is_empty());
}

#[test]
fn observer_is_never_told_about_its_own_entity() {
    let mut engine = Engine::new(0);
    engine.register_partition(Coord::new(0, 0), 1);
    engine.register_partition(Coord::new(1, 0), 2);
    engine.connect_observer(5, 50);
    engine.connect_observer(6, 60);
    let mut out = Vec::new();
    engine.move_observer(5, Coord::new(0, 0), &mut out);
    engine.move_observer(6, Coord::new(0, 0), &mut out);
    out.clear();
    engine.update_occupant(50, 1, &mut out);
    assert_eq!(out, vec![Message::Spawn { observer: 6, entity: 50 }]);
    out.clear();
    engine.attribute_update(50, AttributeKind::Position, &mut out);
    assert_eq!(
        out,
        vec![Message::Update { observer: 6, entity: 50, attribute: AttributeKind::Position }]
    );
    out.clear();
    engine.move_observer(5, Coord::new(1, 0), &mut out);
    assert_eq!(out, vec![load(5, 1, 0), unload(5, 0, 0)]);
    out.clear();
    engine.move_observer(5, Coord::new(0, 0), &mut out);
    assert_eq!(out, vec![load(5, 0, 0), unload(5, 1, 0)]);
    out.clear();
    engine.remove_occupant(50, &mut out);
    assert_eq!(out, vec![Message::Despawn { observer: 6, entity: 50 }]);
}

#[test]
fn spawns_and_despawns_balance() {
    let mut engine = Engine::new(0);
    engine.register_partition(Coord::new(0, 0), 1);
    engine.register_partition(Coord::new(1, 0), 2);
    let mut out = Vec::new();
    engine.move_observer(7, Coord::new(0, 0), &mut out);
    engine.update_occupant(40, 1, &mut out);
    engine.update_occupant(41, 2, &mut out);
    engine.update_occupant(40, 2, &mut out);
    engine.move_observer(7, Coord::new(1, 0), &mut out);
    engine.update_occupant(41, 1, &mut out);
    engine.remove_occupant(40, &mut out);
    engine.update_occupant(41, 2, &mut out);
    engine.disconnect_observer(7, &mut out);
    for e in [40u64, 41] {
        let spawns = out.iter().filter(|m| **m == Message::Spawn { observer: 7, entity: e }).count();
        let despawns = out.iter().filter(|m| **m == Message::Despawn { observer: 7, entity: e }).count();
        assert!(spawns > 0);
        assert_eq!(spawns, despawns);
    }
}

#[test]
fn loading_a_partition_twice_spawns_once() {
    let mut engine = Engine::new(0);
    let c = Coord::new(4, 4);
    let mut out = Vec::new();
    engine.update_occupant(1, 77, &mut out);
    engine.update_occupant(2, 77, &mut out);
    assert!(out.is_empty());
    assert!(engine.load_region(3, 77, c, &mut out));
    assert_eq!(
        out,
        vec![
            Message::LoadRegion { observer: 3, coord: c },
            Message::Spawn { observer: 3, entity: 1 },
            Message::Spawn { observer: 3, entity: 2 },
        ]
    );
    out.clear();
    assert!(!engine.load_region(3, 77, c, &mut out));
    assert!(out.is_empty());
    assert_eq!(engine.observers_of(77), vec![3]);
    assert!(engine.unload_region(3, 77, c, &mut out));
    assert_eq!(
        out,
        vec![
            Message::UnloadRegion { observer: 3, coord: c },
            Message::Despawn { observer: 3, entity: 1 },
            Message::Despawn { observer: 3, entity: 2 },
        ]
    );
    out.clear();
    assert!(!engine.unload_region(3, 77, c, &mut out));
    assert!(out.is_empty());
}

#[test]
fn removing_an_unknown_occupant_says_nothing() {
    let mut engine = Engine::new(0);
    let mut out = Vec::new();
    assert_eq!(engine.remove_occupant(12, &mut out), None);
    assert!(out.is_empty());
    engine.attribute_update(12, AttributeKind::Name, &mut out);
    assert!(out.is_empty());
}

#[test]
fn tearing_down_a_partition_despawns_its_occupants() {
    let mut engine = Engine::new(0);
    let c = Coord::new(0, 0);
    let mut out = Vec::new();
    engine.load_region(1, 5, c, &mut out);
    engine.load_region(2, 5, c, &mut out);
    engine.update_occupant(10, 5, &mut out);
    engine.update_occupant(11, 5, &mut out);
    out.clear();
    engine.remove_partition(5, &mut out);
    assert_eq!(
        out,
        vec![
            Message::Despawn { observer: 1, entity: 10 },
            Message::Despawn { observer: 2, entity: 10 },
            Message::Despawn { observer: 1, entity: 11 },
            Message::Despawn { observer: 2, entity: 11 },
        ]
    );
    assert_eq!(engine.location_of(10), None);
    assert!(engine.occupants_of(5).is_empty());
    assert!(engine.observers_of(5).is_empty());
}

#[test]
fn delivery_class_follows_the_attribute() {
    assert!(AttributeKind::Name.is_reliable());
    assert!(AttributeKind::Class.is_reliable());
    assert!(!AttributeKind::Position.is_reliable());
    assert!(!AttributeKind::Orientation.is_reliable());
    assert!(Message::Spawn { observer: 1, entity: 2 }.is_reliable());
    assert!(load(1, 0, 0).is_reliable());
    assert!(!Message::Update { observer: 1, entity: 2, attribute: AttributeKind::Orientation }.is_reliable());
    assert!(Message::Update { observer: 1, entity: 2, attribute: AttributeKind::Class }.is_reliable());
}

#[test]
fn partition_lookup_through_the_engine() {
    let mut engine = Engine::new(2);
    engine.register_partition(Coord::new(3, -2), 8);
    assert_eq!(engine.lookup(Coord::new(3, -2)), Some(8));
    engine.unregister_partition(Coord::new(3, -2));
    assert_eq!(engine.lookup(Coord::new(3, -2)), None);
}

use region_networking::observers::ObserverRegistry;
use region_networking::occupancy::OccupancyTracker;
use region_networking::order::Coord;
use region_networking::partition_index::PartitionIndex;
use region_networking::sequence::SequenceGuard;

#[test]
fn observer_lists_stay_sorted() {
    let mut reg = ObserverRegistry::new();
    for o in [5u64, 1, 9, 3, 7, 2] {
        assert!(reg.add_observer(10, o));
    }
    assert_eq!(reg.observers_of(10), vec![1, 2, 3, 5, 7, 9]);
    assert!(reg.remove_observer(10, 5));
    assert!(reg.add_observer(10, 4));
    assert_eq!(reg.observers_of(10), vec![1, 2, 3, 4, 7, 9]);
    assert!(reg.observers_of(11).is_empty());
}

#[test]
fn adding_an_observer_twice_keeps_one_entry() {
    let mut reg = ObserverRegistry::new();
    assert!(reg.add_observer(1, 42));
    assert!(!reg.add_observer(1, 42));
    assert_eq!(reg.observers_of(1), vec![42]);
}

#[test]
fn removing_an_absent_observer_changes_nothing() {
    let mut reg = ObserverRegistry::new();
    assert!(reg.add_observer(1, 3));
    assert!(!reg.remove_observer(1, 4));
    assert!(!reg.remove_observer(2, 3));
    assert_eq!(reg.observers_of(1), vec![3]);
    assert!(reg.remove_observer(1, 3));
    assert!(reg.observers_of(1).is_empty());
    reg.add_observer(2, 8);
    reg.remove_partition(2);
    assert!(reg.observers_of(2).is_empty());
}

#[test]
fn occupancy_is_recorded_both_ways() {
    let mut occ = OccupancyTracker::new();
    assert_eq!(occ.update_occupant(1, 100), None);
    assert_eq!(occ.update_occupant(2, 100), None);
    assert_eq!(occ.update_occupant(3, 200), None);
    assert_eq!(occ.occupants_of(100), vec![1, 2]);
    assert_eq!(occ.update_occupant(1, 200), Some(100));
    assert_eq!(occ.update_occupant(1, 200), Some(200));
    assert_eq!(occ.occupants_of(100), vec![2]);
    assert_eq!(occ.occupants_of(200), vec![3, 1]);
    assert_eq!(occ.location_of(1), Some(200));
    assert_eq!(occ.remove_occupant(3), Some(200));
    assert_eq!(occ.remove_occupant(3), None);
    assert_eq!(occ.location_of(3), None);
    assert_eq!(occ.occupants_of(200), vec![1]);
}

#[test]
fn removing_a_partition_forgets_its_occupants() {
    let mut occ = OccupancyTracker::new();
    occ.update_occupant(1, 100);
    occ.update_occupant(2, 100);
    occ.update_occupant(3, 200);
    assert_eq!(occ.remove_partition(100), vec![1, 2]);
    assert!(occ.occupants_of(100).is_empty());
    assert_eq!(occ.location_of(1), None);
    assert_eq!(occ.location_of(2), None);
    assert_eq!(occ.location_of(3), Some(200));
}

#[test]
fn partition_index_maps_coordinates() {
    let mut idx = PartitionIndex::new();
    idx.register(Coord::new(0, 0), 1);
    idx.register(Coord::new(-3, 7), 2);
    assert_eq!(idx.lookup(&Coord::new(0, 0)), Some(1));
    assert_eq!(idx.lookup(&Coord::new(-3, 7)), Some(2));
    assert_eq!(idx.lookup(&Coord::new(7, -3)), None);
    idx.unregister(Coord::new(0, 0));
    assert_eq!(idx.lookup(&Coord::new(0, 0)), None);
    assert_eq!(idx.lookup(&Coord::new(-3, 7)), Some(2));
}

#[test]
fn partition_index_keeps_one_place_per_partition() {
    let mut idx = PartitionIndex::new();
    idx.register(Coord::new(1, 1), 5);
    idx.register(Coord::new(2, 2), 5);
    assert_eq!(idx.lookup(&Coord::new(1, 1)), None);
    assert_eq!(idx.lookup(&Coord::new(2, 2)), Some(5));
    idx.register(Coord::new(2, 2), 6);
    assert_eq!(idx.lookup(&Coord::new(2, 2)), Some(6));
    idx.register(Coord::new(i32::MIN, i32::MAX), 5);
    idx.register(Coord::new(i32::MAX, i32::MIN), 7);
    assert_eq!(idx.lookup(&Coord::new(i32::MIN, i32::MAX)), Some(5));
    assert_eq!(idx.lookup(&Coord::new(i32::MAX, i32::MIN)), Some(7));
}

#[test]
fn stale_sequence_numbers_are_dropped() {
    let mut guard = SequenceGuard::new(0);
    assert!(!guard.accept(0));
    assert!(guard.accept(1));
    assert!(!guard.accept(1));
    assert!(guard.accept(5));
    assert!(!guard.accept(3));
    assert_eq!(guard.last, 5);
}

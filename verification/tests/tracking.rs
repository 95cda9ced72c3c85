use grand_pattern::tracking::{record_first_tick, DissolutionTracker};

#[test]
fn first_tick_is_kept() {
    assert_eq!(record_first_tick(None, 3, false), None);
    assert_eq!(record_first_tick(None, 3, true), Some(3));
    assert_eq!(record_first_tick(Some(1), 3, true), Some(1));
    assert_eq!(record_first_tick(Some(1), 3, false), Some(1));
}

#[test]
fn convergence_tick_over_a_run() {
    let hits = [false, false, true, false, true];
    let mut first = None;
    for (tick, &hit) in hits.iter().enumerate() {
        first = record_first_tick(first, tick, hit);
    }
    assert_eq!(first, Some(2));
}

#[test]
fn tracker_starts_empty() {
    let t = DissolutionTracker::new(5);
    assert_eq!(t.dissolved_count(), 0);
    assert_eq!(t.first_dissolve_tick(), None);
    assert!(!t.all_dissolved());
    assert_eq!(t.active_rooms(), vec![0, 1, 2, 3, 4]);
}

#[test]
fn dissolution_is_permanent_and_first_tick_fixed() {
    let mut t = DissolutionTracker::new(5);
    t.observe(0, &vec![false; 5]);
    assert_eq!(t.first_dissolve_tick(), None);
    t.observe(7, &vec![false, true, false, true, false]);
    assert_eq!(t.dissolved_count(), 2);
    assert_eq!(t.first_dissolve_tick(), Some(7));
    assert_eq!(t.active_rooms(), vec![0, 2, 4]);
    // Rooms 1 and 3 stay dissolved even when no longer stagnant.
    t.observe(8, &vec![true, false, false, false, false]);
    assert!(t.is_dissolved(1));
    assert!(t.is_dissolved(3));
    assert!(t.is_dissolved(0));
    assert_eq!(t.dissolved_count(), 3);
    assert_eq!(t.first_dissolve_tick(), Some(7));
    // A room already dissolved is not counted twice.
    t.observe(9, &vec![true, true, false, false, false]);
    assert_eq!(t.dissolved_count(), 3);
    t.observe(10, &vec![true; 5]);
    assert!(t.all_dissolved());
    assert_eq!(t.dissolved_count(), 5);
    assert_eq!(t.active_rooms(), Vec::<usize>::new());
}

#[test]
fn empty_tracker_is_all_dissolved() {
    let t = DissolutionTracker::new(0);
    assert!(t.all_dissolved());
    assert_eq!(t.dissolved_count(), 0);
}

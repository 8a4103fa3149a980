#![allow(dead_code, unused_imports, unused_variables, unused_mut)]

use chrono::Utc;
use std::collections::{BTreeSet, HashSet};
use uni_schedule::interval::{timestamp_from_parts, Interval, ScheduleId, Timestamp};
use uni_schedule::lapper::Lapper;
use uni_schedule::manager::ScheduleManager;
use uni_schedule::query::QueryOptions;
use uni_schedule::schedule::{Schedule, ScheduleError};
use uuid::Uuid;

fn now() -> Timestamp {
    let t = Utc::now();
    timestamp_from_parts(t.timestamp(), t.timestamp_subsec_nanos())
}

fn new_id() -> ScheduleId {
    Uuid::now_v7().as_u128()
}

fn nanoseconds(n: i64) -> i128 {
    n as i128
}

fn microseconds(n: i64) -> i128 {
    n as i128 * 1_000
}

fn milliseconds(n: i64) -> i128 {
    n as i128 * 1_000_000
}

fn seconds(n: i64) -> i128 {
    n as i128 * 1_000_000_000
}

fn minutes(n: i64) -> i128 {
    seconds(n) * 60
}

fn hours(n: i64) -> i128 {
    minutes(n) * 60
}

fn days(n: i64) -> i128 {
    hours(n) * 24
}

fn lapper_of(set: BTreeSet<Interval>) -> Lapper {
    Lapper::new(set.iter().map(|iv| iv.key()).collect())
}

fn create_interval(start: Timestamp, duration_hours: i64) -> Interval {
    Interval { start, stop: start + hours(duration_hours), val: new_id() }
}

fn create_interval_with_id(start: Timestamp, duration_hours: i64, id: ScheduleId) -> Interval {
    Interval { start, stop: start + hours(duration_hours), val: id }
}

#[test]
fn new_validates_start_before_stop() {
    let start = now();
    let id = new_id();

    // Valid interval
    assert!(Interval::new(start, start + hours(1), id).is_ok());

    // Invalid: start == stop
    assert!(Interval::new(start, start, id).is_err());

    // Invalid: start > stop
    assert!(Interval::new(start + hours(1), start, id).is_err());
}

#[test]
fn new_validates_extreme_time_ranges() {
    let id = new_id();

    // Test with very distant past and future
    let year_1970 = timestamp_from_parts(0, 0);
    let year_2100 = timestamp_from_parts(4102444800, 0);

    // Valid extreme range
    assert!(Interval::new(year_1970, year_2100, id).is_ok());

    // Invalid: future before past
    assert!(Interval::new(year_2100, year_1970, id).is_err());
}

#[test]
fn new_validates_minimal_duration() {
    let start = now();
    let id = new_id();

    // Minimal valid duration (1 nanosecond)
    assert!(Interval::new(start, start + nanoseconds(1), id).is_ok());

    // Invalid: negative duration
    assert!(Interval::new(start, start - nanoseconds(1), id).is_err());
}

#[test]
fn overlap_detects_overlapping_ranges() {
    let start = now();
    let interval = create_interval_with_id(
        start + hours(1),
        2, // duration: 1 hour to 3 hours
        new_id(),
    );

    // No overlap: query ends before interval starts
    assert!(!interval.overlap(start, start + hours(1)));

    // No overlap: query starts after interval ends
    assert!(!interval.overlap(start + hours(3), start + hours(4)));

    // Overlap: query starts before and ends during interval
    assert!(interval.overlap(start, start + hours(2)));

    // Overlap: query starts during and ends after interval
    assert!(interval.overlap(start + hours(2), start + hours(4)));

    // Overlap: query completely contains interval
    assert!(interval.overlap(start, start + hours(4)));

    // Overlap: interval completely contains query
    assert!(interval.overlap(
        start + hours(1) + minutes(30),
        start + hours(2) + minutes(30)
    ));
}

#[test]
fn overlap_with_minimal_durations() {
    let start = now();
    let id = new_id();

    // Interval with 1 nanosecond duration
    let tiny_interval = Interval {
        start,
        stop: start + nanoseconds(1),
        val: id,
    };

    // Should overlap with itself
    assert!(tiny_interval.overlap(start, start + nanoseconds(1)));

    // Should not overlap with adjacent nanosecond
    assert!(!tiny_interval.overlap(
        start + nanoseconds(1),
        start + nanoseconds(2)
    ));

    // Should overlap with containing range
    assert!(tiny_interval.overlap(start - seconds(1), start + seconds(1)));
}

#[test]
fn overlap_with_same_uuid_different_times() {
    let start = now();
    let id = new_id();

    let interval1 = Interval {
        start,
        stop: start + hours(1),
        val: id,
    };

    let interval2 = Interval {
        start: start + hours(2),
        stop: start + hours(3),
        val: id, // Same UUID, different time
    };

    // They shouldn't overlap with each other
    assert!(!interval1.overlap(interval2.start, interval2.stop));
    assert!(!interval2.overlap(interval1.start, interval1.stop));
}

#[test]
fn overlap_respects_half_open_intervals() {
    let start = now();
    let interval = create_interval_with_id(
        start + hours(1),
        2, // [1h, 3h)
        new_id(),
    );

    // Edge case: query starts exactly when interval ends (no overlap)
    assert!(!interval.overlap(start + hours(3), start + hours(4)));

    // Edge case: query ends exactly when interval starts (no overlap)
    assert!(!interval.overlap(start, start + hours(1)));
}

#[test]
fn test_create_schedule_parent_not_found_and_level_checks() {
    let mut manager = ScheduleManager::new();
    let start = now();
    let end = start + hours(1);
    let mut parents = HashSet::new();
    parents.insert(new_id()); // non-existent parent

    let res = manager.create_schedule(
        Schedule {
            start,
            end,
            level: 1,
            exclusive: false,
            name: "child".into(),
        },
        parents.clone(),
    );
    // a parent that does not exist is refused
    assert_eq!(res, Err(ScheduleError::ParentNotFound));

    // create a parent and then attempt invalid level
    let parent_id = manager
        .create_schedule(
            Schedule {
                start,
                end,
                level: 5,
                exclusive: false,
                name: "parent".into(),
            },
            HashSet::new(),
        )
        .unwrap();

    let mut parent_set = HashSet::new();
    parent_set.insert(parent_id);

    let res2 = manager.create_schedule(
        Schedule {
            start,
            end,
            level: 5,
            exclusive: false,
            name: "badchild".into(),
        },
        parent_set,
    );
    assert_eq!(res2, Err(ScheduleError::LevelExceedsParent));
}

#[test]
fn schedule_lapper_overlap_and_remove_edge_cases() {
    // Verify half-open semantics, insertion/removal, and tiny durations.
    let start = now();
    let id1 = new_id();
    let id2 = new_id();

    let mut lapper = lapper_of(BTreeSet::new());

    // Insert two adjacent intervals
    let iv1 = Interval {
        start,
        stop: start + hours(1),
        val: id1,
    };
    let iv2 = Interval {
        start: start + hours(1),
        stop: start + hours(2),
        val: id2,
    };
    lapper.insert(iv1.clone());
    lapper.insert(iv2.clone());

    // Query exactly at the boundary: should not overlap (half-open)
    assert!(!lapper.has_overlap(start + hours(1), start + hours(1)));

    // Query that touches iv1 end and iv2 start (no overlap)
    assert!(!lapper.has_overlap(
        start + hours(1),
        start + hours(1) + nanoseconds(0)
    ));

    // Overlap with iv1
    assert!(lapper.has_overlap(start + minutes(30), start + minutes(90)));

    // Remove iv1 and ensure iv2 still present
    assert!(lapper.remove(&iv1));
    let mut found_ids: Vec<ScheduleId> = lapper
        .find(start, start + hours(3)).into_iter()
        .map(|iv| iv.val)
        .collect();
    assert_eq!(found_ids.len(), 1);
    assert_eq!(found_ids.pop().unwrap(), id2);

    // Tiny interval (1 nanosecond) overlaps correctly
    let tiny_start = now() + seconds(10);
    let tiny = Interval {
        start: tiny_start,
        stop: tiny_start + nanoseconds(1),
        val: new_id(),
    };
    lapper.insert(tiny.clone());
    assert!(lapper.has_overlap(tiny_start, tiny_start + nanoseconds(1)));
    assert!(!lapper.has_overlap(
        tiny_start + nanoseconds(1),
        tiny_start + nanoseconds(2)
    ));
}

#[test]
fn schedule_schedule_manager_exclusivity_and_cascade_delete() {
    let mut mgr = ScheduleManager::new();
    let start = now();
    let end = start + hours(2);

    // Create a high-priority exclusive schedule at level 1
    let sched1 = Schedule {
        start,
        end,
        level: 1,
        exclusive: true,
        name: "exclusive".into(),
    };
    let id1 = mgr.create_schedule(sched1, HashSet::new()).unwrap();

    // Attempt to create an overlapping schedule at level 2 (numeric >= 1).
    // Because exclusive_index checks levels <= schedule.level, an exclusive at level 1
    // should prevent creation at level 2 (1 <= 2).
    let sched2 = Schedule {
        start: start + minutes(30),
        end: end + hours(1),
        level: 2,
        exclusive: false,
        name: "blocked".into(),
    };
    let res = mgr.create_schedule(sched2, HashSet::new());
    assert_eq!(res, Err(ScheduleError::TimeRangeOverlaps));

    // Create a non-overlapping schedule at level 2 should succeed
    let sched3 = Schedule {
        start: end + hours(1),
        end: end + hours(2),
        level: 2,
        exclusive: false,
        name: "ok".into(),
    };
    let id3 = mgr.create_schedule(sched3, HashSet::new()).unwrap();

    // Add a child to id1 and verify cascade delete removes the child when parent is deleted
    let child = Schedule {
        start: start + minutes(10),
        end: start + minutes(20),
        level: 2,
        exclusive: false,
        name: "child".into(),
    };
    let mut parents = HashSet::new();
    parents.insert(id1);
    let child_id = mgr.create_schedule(child, parents).unwrap();

    // Now delete parent and ensure child is cascade deleted
    let removed = mgr.delete_schedule(id1).unwrap();
    assert!(removed.contains(&id1));
    assert!(removed.contains(&child_id));
    // id3 should still exist
    assert!(mgr.get_schedule(id3).is_some());
}

#[test]
fn schedule_child_with_multiple_parents_survives_single_parent_delete() {
    let mut mgr = ScheduleManager::new();
    let start = now();
    let end = start + hours(4);

    // Create two parents that both contain the child range
    // Use non-exclusive parents so they may overlap each other for this test.
    let parent1 = Schedule {
        start,
        end,
        level: 1,
        exclusive: false,
        name: "p1".into(),
    };
    let p1 = mgr.create_schedule(parent1, HashSet::new()).unwrap();

    let parent2 = Schedule {
        start: start + hours(0),
        end: end + hours(1),
        level: 1,
        exclusive: false,
        name: "p2".into(),
    };
    let p2 = mgr.create_schedule(parent2, HashSet::new()).unwrap();

    // Child contained in both parents
    let child = Schedule {
        start: start + hours(1),
        end: start + hours(2),
        level: 2,
        exclusive: false,
        name: "child".into(),
    };
    let mut parents = HashSet::new();
    parents.insert(p1);
    parents.insert(p2);
    let child_id = mgr.create_schedule(child, parents).unwrap();

    // Delete only parent1: child should remain because parent2 is still present
    let removed1 = mgr.delete_schedule(p1).unwrap();
    assert!(removed1.contains(&p1));
    assert!(!removed1.contains(&child_id));
    assert!(mgr.get_schedule(child_id).is_some());

    // Now delete parent2: child should be cascade deleted
    let removed2 = mgr.delete_schedule(p2).unwrap();
    assert!(removed2.contains(&p2));
    assert!(removed2.contains(&child_id));
    assert!(mgr.get_schedule(child_id).is_none());
}

#[test]
fn schedule_create_schedule_with_id_duplicate_error() {
    let mut mgr = ScheduleManager::new();
    let start = now();
    let end = start + hours(1);
    let id = new_id();

    let sched = Schedule {
        start,
        end,
        level: 1,
        exclusive: false,
        name: "s".into(),
    };
    // First insertion with explicit id should succeed
    let r1 = mgr.create_schedule_with_id(id, sched.clone(), HashSet::new());
    assert!(r1.is_ok());

    // Second insertion with same id should fail with DuplicateId
    let r2 = mgr.create_schedule_with_id(id, sched, HashSet::new());
    assert_eq!(r2, Err(ScheduleError::DuplicateId));
}

#[test]
fn schedule_lapper_serde_roundtrip_and_duplicate_same_range() {
    // The sorted set keeps both intervals, in order
    let mut lapper = lapper_of(BTreeSet::new());
    let start = now();
    let id1 = new_id();
    let id2 = new_id();

    // Two intervals with identical start/stop but different vals
    let iv1 = Interval {
        start,
        stop: start + hours(1),
        val: id1,
    };
    let iv2 = Interval {
        start,
        stop: start + hours(1),
        val: id2,
    };
    lapper.insert(iv1.clone());
    lapper.insert(iv2.clone());

    // Both should be present when iterating over intervals set
    let mut vals: Vec<ScheduleId> = lapper.intervals().iter().map(|iv| iv.val).collect();
    vals.sort();
    let mut expected = vec![id1, id2];
    expected.sort();
    assert_eq!(vals, expected);

    // Ensure overlap predicate works on the original lapper
    assert!(lapper.has_overlap(start, start + hours(1)));
}

#[test]
fn schedule_schedule_manager_query_time_boundaries() {
    let mut mgr = ScheduleManager::new();
    let start = now();
    let i1 = Schedule {
        start,
        end: start + hours(1),
        level: 1,
        exclusive: false,
        name: "a".into(),
    };
    let i2 = Schedule {
        start: start + hours(1),
        end: start + hours(2),
        level: 1,
        exclusive: false,
        name: "b".into(),
    };
    let id1 = mgr.create_schedule(i1, HashSet::new()).unwrap();
    let id2 = mgr.create_schedule(i2, HashSet::new()).unwrap();

    // Query range that ends exactly at i1.end: manager includes schedules
    // that start before the stop value (i.e., start < stop), so i1 is expected.
    let opts = QueryOptions {
        start: None,
        stop: Some(start + hours(1)),
        ..Default::default()
    };
    let res = mgr.query_schedule(opts);
    assert!(res.iter().any(|(id, _)| *id == id1));

    // Query with start exactly at i2.start should include i2
    let opts2 = QueryOptions {
        start: Some(start + hours(1)),
        stop: None,
        ..Default::default()
    };
    let res2 = mgr.query_schedule(opts2);
    assert!(res2.iter().any(|(id, _)| *id == id2));

    // Query overlapping both
    let opts3 = QueryOptions {
        start: Some(start + minutes(30)),
        stop: Some(start + hours(1) + minutes(30)),
        ..Default::default()
    };
    let res3 = mgr.query_schedule(opts3);
    let ids: Vec<ScheduleId> = res3.into_iter().map(|(id, _)| id).collect();
    assert!(ids.contains(&id1));
    assert!(ids.contains(&id2));
}

#[test]
fn mod_test_create_schedule_parent_not_found_and_level_checks() {
    let mut manager = ScheduleManager::new();
    let start = now();
    let end = start + hours(1);
    let mut parents = HashSet::new();
    parents.insert(new_id()); // non-existent parent

    let res = manager.create_schedule(
        Schedule {
            start,
            end,
            level: 1,
            exclusive: false,
            name: "child".into(),
        },
        parents.clone(),
    );
    // a parent that does not exist is refused
    assert_eq!(res, Err(ScheduleError::ParentNotFound));

    // create a parent and then attempt invalid level
    let parent_id = manager
        .create_schedule(
            Schedule {
                start,
                end,
                level: 5,
                exclusive: false,
                name: "parent".into(),
            },
            HashSet::new(),
        )
        .unwrap();

    let mut parent_set = HashSet::new();
    parent_set.insert(parent_id);

    let res2 = manager.create_schedule(
        Schedule {
            start,
            end,
            level: 5,
            exclusive: false,
            name: "badchild".into(),
        },
        parent_set,
    );
    assert_eq!(res2, Err(ScheduleError::LevelExceedsParent));
}

#[test]
fn mod_lapper_overlap_and_remove_edge_cases() {
    // Verify half-open semantics, insertion/removal, and tiny durations.
    let start = now();
    let id1 = new_id();
    let id2 = new_id();

    let mut lapper = lapper_of(BTreeSet::new());

    // Insert two adjacent intervals
    let iv1 = Interval {
        start,
        stop: start + hours(1),
        val: id1,
    };
    let iv2 = Interval {
        start: start + hours(1),
        stop: start + hours(2),
        val: id2,
    };
    lapper.insert(iv1.clone());
    lapper.insert(iv2.clone());

    // Query exactly at the boundary: should not overlap (half-open)
    assert!(!lapper.has_overlap(start + hours(1), start + hours(1)));

    // Query that touches iv1 end and iv2 start (no overlap)
    assert!(!lapper.has_overlap(
        start + hours(1),
        start + hours(1) + nanoseconds(0)
    ));

    // Overlap with iv1
    assert!(lapper.has_overlap(start + minutes(30), start + minutes(90)));

    // Remove iv1 and ensure iv2 still present
    assert!(lapper.remove(&iv1));
    let mut found_ids: Vec<ScheduleId> = lapper
        .find(start, start + hours(3)).into_iter()
        .map(|iv| iv.val)
        .collect();
    assert_eq!(found_ids.len(), 1);
    assert_eq!(found_ids.pop().unwrap(), id2);

    // Tiny interval (1 nanosecond) overlaps correctly
    let tiny_start = now() + seconds(10);
    let tiny = Interval {
        start: tiny_start,
        stop: tiny_start + nanoseconds(1),
        val: new_id(),
    };
    lapper.insert(tiny.clone());
    assert!(lapper.has_overlap(tiny_start, tiny_start + nanoseconds(1)));
    assert!(!lapper.has_overlap(
        tiny_start + nanoseconds(1),
        tiny_start + nanoseconds(2)
    ));
}

#[test]
fn mod_schedule_manager_exclusivity_and_cascade_delete() {
    let mut mgr = ScheduleManager::new();
    let start = now();
    let end = start + hours(2);

    // Create a high-priority exclusive schedule at level 1
    let sched1 = Schedule {
        start,
        end,
        level: 1,
        exclusive: true,
        name: "exclusive".into(),
    };
    let id1 = mgr.create_schedule(sched1, HashSet::new()).unwrap();

    // Attempt to create an overlapping schedule at level 2 (numeric >= 1).
    // Because exclusive_index checks levels <= schedule.level, an exclusive at level 1
    // should prevent creation at level 2 (1 <= 2).
    let sched2 = Schedule {
        start: start + minutes(30),
        end: end + hours(1),
        level: 2,
        exclusive: false,
        name: "blocked".into(),
    };
    let res = mgr.create_schedule(sched2, HashSet::new());
    assert_eq!(res, Err(ScheduleError::TimeRangeOverlaps));

    // Create a non-overlapping schedule at level 2 should succeed
    let sched3 = Schedule {
        start: end + hours(1),
        end: end + hours(2),
        level: 2,
        exclusive: false,
        name: "ok".into(),
    };
    let id3 = mgr.create_schedule(sched3, HashSet::new()).unwrap();

    // Add a child to id1 and verify cascade delete removes the child when parent is deleted
    let child = Schedule {
        start: start + minutes(10),
        end: start + minutes(20),
        level: 2,
        exclusive: false,
        name: "child".into(),
    };
    let mut parents = HashSet::new();
    parents.insert(id1);
    let child_id = mgr.create_schedule(child, parents).unwrap();

    // Now delete parent and ensure child is cascade deleted
    let removed = mgr.delete_schedule(id1).unwrap();
    assert!(removed.contains(&id1));
    assert!(removed.contains(&child_id));
    // id3 should still exist
    assert!(mgr.get_schedule(id3).is_some());
}

#[test]
fn mod_child_with_multiple_parents_survives_single_parent_delete() {
    let mut mgr = ScheduleManager::new();
    let start = now();
    let end = start + hours(4);

    // Create two parents that both contain the child range
    // Use non-exclusive parents so they may overlap each other for this test.
    let parent1 = Schedule {
        start,
        end,
        level: 1,
        exclusive: false,
        name: "p1".into(),
    };
    let p1 = mgr.create_schedule(parent1, HashSet::new()).unwrap();

    let parent2 = Schedule {
        start: start + hours(0),
        end: end + hours(1),
        level: 1,
        exclusive: false,
        name: "p2".into(),
    };
    let p2 = mgr.create_schedule(parent2, HashSet::new()).unwrap();

    // Child contained in both parents
    let child = Schedule {
        start: start + hours(1),
        end: start + hours(2),
        level: 2,
        exclusive: false,
        name: "child".into(),
    };
    let mut parents = HashSet::new();
    parents.insert(p1);
    parents.insert(p2);
    let child_id = mgr.create_schedule(child, parents).unwrap();

    // Delete only parent1: child should remain because parent2 is still present
    let removed1 = mgr.delete_schedule(p1).unwrap();
    assert!(removed1.contains(&p1));
    assert!(!removed1.contains(&child_id));
    assert!(mgr.get_schedule(child_id).is_some());

    // Now delete parent2: child should be cascade deleted
    let removed2 = mgr.delete_schedule(p2).unwrap();
    assert!(removed2.contains(&p2));
    assert!(removed2.contains(&child_id));
    assert!(mgr.get_schedule(child_id).is_none());
}

#[test]
fn mod_create_schedule_with_id_duplicate_error() {
    let mut mgr = ScheduleManager::new();
    let start = now();
    let end = start + hours(1);
    let id = new_id();

    let sched = Schedule {
        start,
        end,
        level: 1,
        exclusive: false,
        name: "s".into(),
    };
    // First insertion with explicit id should succeed
    let r1 = mgr.create_schedule_with_id(id, sched.clone(), HashSet::new());
    assert!(r1.is_ok());

    // Second insertion with same id should fail with DuplicateId
    let r2 = mgr.create_schedule_with_id(id, sched, HashSet::new());
    assert_eq!(r2, Err(ScheduleError::DuplicateId));
}

#[test]
fn mod_lapper_serde_roundtrip_and_duplicate_same_range() {
    // The sorted set keeps both intervals, in order
    let mut lapper = lapper_of(BTreeSet::new());
    let start = now();
    let id1 = new_id();
    let id2 = new_id();

    // Two intervals with identical start/stop but different vals
    let iv1 = Interval {
        start,
        stop: start + hours(1),
        val: id1,
    };
    let iv2 = Interval {
        start,
        stop: start + hours(1),
        val: id2,
    };
    lapper.insert(iv1.clone());
    lapper.insert(iv2.clone());

    // Both should be present when iterating over intervals set
    let mut vals: Vec<ScheduleId> = lapper.intervals().iter().map(|iv| iv.val).collect();
    vals.sort();
    let mut expected = vec![id1, id2];
    expected.sort();
    assert_eq!(vals, expected);

    // Ensure overlap predicate works on the original lapper
    assert!(lapper.has_overlap(start, start + hours(1)));
}

#[test]
fn mod_schedule_manager_query_time_boundaries() {
    let mut mgr = ScheduleManager::new();
    let start = now();
    let i1 = Schedule {
        start,
        end: start + hours(1),
        level: 1,
        exclusive: false,
        name: "a".into(),
    };
    let i2 = Schedule {
        start: start + hours(1),
        end: start + hours(2),
        level: 1,
        exclusive: false,
        name: "b".into(),
    };
    let id1 = mgr.create_schedule(i1, HashSet::new()).unwrap();
    let id2 = mgr.create_schedule(i2, HashSet::new()).unwrap();

    // Query range that ends exactly at i1.end: manager includes schedules
    // that start before the stop value (i.e., start < stop), so i1 is expected.
    let opts = QueryOptions {
        start: None,
        stop: Some(start + hours(1)),
        ..Default::default()
    };
    let res = mgr.query_schedule(opts);
    assert!(res.iter().any(|(id, _)| *id == id1));

    // Query with start exactly at i2.start should include i2
    let opts2 = QueryOptions {
        start: Some(start + hours(1)),
        stop: None,
        ..Default::default()
    };
    let res2 = mgr.query_schedule(opts2);
    assert!(res2.iter().any(|(id, _)| *id == id2));

    // Query overlapping both
    let opts3 = QueryOptions {
        start: Some(start + minutes(30)),
        stop: Some(start + hours(1) + minutes(30)),
        ..Default::default()
    };
    let res3 = mgr.query_schedule(opts3);
    let ids: Vec<ScheduleId> = res3.into_iter().map(|(id, _)| id).collect();
    assert!(ids.contains(&id1));
    assert!(ids.contains(&id2));
}

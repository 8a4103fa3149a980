#![allow(dead_code, unused_imports, unused_variables, unused_mut)]

use chrono::Utc;
use std::collections::{BTreeSet, HashSet};
use uni_schedule::interval::{timestamp_from_parts, Interval, ScheduleId, Timestamp};
use uni_schedule::lapper::Lapper;
use uni_schedule::manager::ScheduleManager;
use uni_schedule::query::QueryOptions;
use uni_schedule::schedule::{Schedule, ScheduleError};
use uuid::Uuid;

fn now() -> Timestamp {
    let t = Utc::now();
    timestamp_from_parts(t.timestamp(), t.timestamp_subsec_nanos())
}

fn new_id() -> ScheduleId {
    Uuid::now_v7().as_u128()
}

fn nanoseconds(n: i64) -> i128 {
    n as i128
}

fn microseconds(n: i64) -> i128 {
    n as i128 * 1_000
}

fn milliseconds(n: i64) -> i128 {
    n as i128 * 1_000_000
}

fn seconds(n: i64) -> i128 {
    n as i128 * 1_000_000_000
}

fn minutes(n: i64) -> i128 {
    seconds(n) * 60
}

fn hours(n: i64) -> i128 {
    minutes(n) * 60
}

fn days(n: i64) -> i128 {
    hours(n) * 24
}

fn lapper_of(set: BTreeSet<Interval>) -> Lapper {
    Lapper::new(set.iter().map(|iv| iv.key()).collect())
}

fn create_interval(start: Timestamp, duration_hours: i64) -> Interval {
    Interval { start, stop: start + hours(duration_hours), val: new_id() }
}

fn create_interval_with_id(start: Timestamp, duration_hours: i64, id: ScheduleId) -> Interval {
    Interval { start, stop: start + hours(duration_hours), val: id }
}

#[test]
fn schedule_test_create_schedule_parent_not_found_and_level_checks() {
    let mut manager = ScheduleManager::new();
    let start = now();
    let end = start + hours(1);
    let mut parents = HashSet::new();
    parents.insert(new_id()); // non-existent parent

    let res = manager.create_schedule(
        Schedule {
            start,
            end,
            level: 1,
            exclusive: false,
            name: "child".into(),
        },
        parents.clone(),
    );
    // a parent that does not exist is refused
    assert_eq!(res, Err(ScheduleError::ParentNotFound));

    // create a parent and then attempt invalid level
    let parent_id = manager
        .create_schedule(
            Schedule {
                start,
                end,
                level: 5,
                exclusive: false,
                name: "parent".into(),
            },
            HashSet::new(),
        )
        .unwrap();

    let mut parent_set = HashSet::new();
    parent_set.insert(parent_id);

    let res2 = manager.create_schedule(
        Schedule {
            start,
            end,
            level: 5,
            exclusive: false,
            name: "badchild".into(),
        },
        parent_set,
    );
    assert_eq!(res2, Err(ScheduleError::LevelExceedsParent));
}

#[test]
fn test_create_and_get_schedule() {
    let mut manager = ScheduleManager::new();
    let start = now();
    let end = start + hours(1);

    let id = manager
        .create_schedule(
            Schedule {
                start,
                end,
                level: 1,
                exclusive: false,
                name: "task-get".into(),
            },
            HashSet::new(),
        )
        .unwrap();

    let fetched = manager.get_schedule(id);
    assert!(fetched.is_some());
    let s = fetched.unwrap();
    assert_eq!(s.name, "task-get");
    // query by name
    let out = manager.query_schedule(QueryOptions {
        name: Some("task".into()),
        ..Default::default()
    });
    assert!(out.iter().any(|(i, _)| *i == id));
}

#[test]
fn test_create_start_after_end_error() {
    let mut manager = ScheduleManager::new();
    let start = now();
    let end = start - hours(1);

    let res = manager.create_schedule(
        Schedule {
            start,
            end,
            level: 0,
            exclusive: false,
            name: "bad".into(),
        },
        HashSet::new(),
    );
    assert_eq!(res, Err(ScheduleError::StartAfterEnd));
}

#[test]
fn test_exclusive_blocks_existing_all_higher_levels() {
    // create a non-exclusive schedule at higher level
    let mut manager = ScheduleManager::new();
    let start = now();
    let end = start + hours(1);

    let _high = manager
        .create_schedule(
            Schedule {
                start,
                end,
                level: 2,
                exclusive: false,
                name: "high".into(),
            },
            HashSet::new(),
        )
        .unwrap();

    // attempt to create an exclusive schedule at a lower level that overlaps
    let res = manager.create_schedule(
        Schedule {
            start,
            end,
            level: 1,
            exclusive: true,
            name: "exclusive-lower".into(),
        },
        HashSet::new(),
    );

    assert_eq!(res, Err(ScheduleError::TimeRangeOverlaps));
}

#[test]
fn test_exclusive_overlap_same_level_blocked() {
    let mut manager = ScheduleManager::new();
    let start = now();
    let end = start + hours(1);

    let _a = manager
        .create_schedule(
            Schedule {
                start,
                end,
                level: 1,
                exclusive: true,
                name: "ex-a".into(),
            },
            HashSet::new(),
        )
        .unwrap();

    // overlapping exclusive at same level should be rejected
    let res = manager.create_schedule(
        Schedule {
            start,
            end,
            level: 1,
            exclusive: true,
            name: "ex-b".into(),
        },
        HashSet::new(),
    );

    assert_eq!(res, Err(ScheduleError::TimeRangeOverlaps));
}

#[test]
fn test_delete_schedule_cascade_expected_behavior() {
    // Cascade delete semantics for parent and child
    let mut manager = ScheduleManager::new();
    let start = now();
    let end = start + hours(1);

    // create parent
    let parent_id = manager
        .create_schedule(
            Schedule {
                start,
                end,
                level: 1,
                exclusive: false,
                name: "parent".into(),
            },
            HashSet::new(),
        )
        .unwrap();

    // create child tied to parent
    let mut parents = HashSet::new();
    parents.insert(parent_id);
    let child_id = manager
        .create_schedule(
            Schedule {
                start,
                end,
                level: 5,
                exclusive: false,
                name: "child".into(),
            },
            parents.clone(),
        )
        .unwrap();

    // delete parent and expect child to be removed when it has no remaining parents
    manager.delete_schedule(parent_id).unwrap();

    // The child is deleted as part of the cascade
    assert!(manager.get_schedule(child_id).is_none());
}

#[test]
fn test_delete_nonexistent_returns_error() {
    let mut manager = ScheduleManager::new();
    let id = new_id();
    let res = manager.delete_schedule(id);
    assert_eq!(res, Err(ScheduleError::ScheduleNotFound));
}

#[test]
fn test_query_by_level_and_exclusive() {
    let mut manager = ScheduleManager::new();
    let start = now();
    let end = start + hours(1);

    let id_a = manager
        .create_schedule(
            Schedule {
                start,
                end,
                level: 1,
                exclusive: true,
                name: "ex-level1".into(),
            },
            HashSet::new(),
        )
        .unwrap();

    let id_b = manager
        .create_schedule(
            Schedule {
                start: end + hours(1),
                end: end + hours(2),
                level: 2,
                exclusive: true,
                name: "ex-level2".into(),
            },
            HashSet::new(),
        )
        .unwrap();

    // query level 1 exclusive true should return only id_a
    let out = manager.query_schedule(QueryOptions {
        level: Some(1),
        exclusive: Some(true),
        ..Default::default()
    });
    assert_eq!(out.len(), 1);
    assert_eq!(out[0].0, id_a);

    // query exclusive true without level should return both
    let out2 = manager.query_schedule(QueryOptions {
        exclusive: Some(true),
        ..Default::default()
    });
    let ids: Vec<_> = out2.into_iter().map(|(i, _)| i).collect();
    assert!(ids.contains(&id_a));
    assert!(ids.contains(&id_b));
}

#[test]
fn test_query_by_time_range() {
    let mut manager = ScheduleManager::new();
    let s = now();

    let iv1_start = s;
    let iv1_end = s + hours(1);
    let iv2_start = s + hours(2);
    let iv2_end = s + hours(3);

    let id1 = manager
        .create_schedule(
            Schedule {
                start: iv1_start,
                end: iv1_end,
                level: 1,
                exclusive: false,
                name: "t1".into(),
            },
            HashSet::new(),
        )
        .unwrap();

    let id2 = manager
        .create_schedule(
            Schedule {
                start: iv2_start,
                end: iv2_end,
                level: 1,
                exclusive: false,
                name: "t2".into(),
            },
            HashSet::new(),
        )
        .unwrap();

    // query overlapping [s + 30min, s + 2h30min) should hit both
    let qstart = s + minutes(30);
    let qstop = s + hours(2) + minutes(30);
    let out = manager.query_schedule(QueryOptions {
        start: Some(qstart),
        stop: Some(qstop),
        ..Default::default()
    });
    let ids: Vec<_> = out.into_iter().map(|(i, _)| i).collect();
    assert!(ids.contains(&id1));
    assert!(ids.contains(&id2));
}

#[test]
fn test_query_by_name_and_nonexclusive() {
    let mut manager = ScheduleManager::new();
    let s = now();
    let e = s + hours(1);

    let id1 = manager
        .create_schedule(
            Schedule {
                start: s,
                end: e,
                level: 1,
                exclusive: false,
                name: "alpha-task".into(),
            },
            HashSet::new(),
        )
        .unwrap();

    let _id2 = manager
        .create_schedule(
            Schedule {
                start: s + hours(2),
                end: e + hours(2),
                level: 1,
                exclusive: true,
                name: "beta-task".into(),
            },
            HashSet::new(),
        )
        .unwrap();

    // name filter plus exclusive=false should return only alpha-task
    let out = manager.query_schedule(QueryOptions {
        name: Some("alpha".into()),
        exclusive: Some(false),
        ..Default::default()
    });
    assert_eq!(out.len(), 1);
    assert_eq!(out[0].0, id1);
}

#[test]
fn test_query_options_typed_builder() {
    // The builder sets the filters it is given
    let opts1 = QueryOptions::builder()
        .name("test-task".to_string())
        .level(1u32)
        .exclusive(true)
        .build();

    assert_eq!(opts1.name, Some("test-task".to_string()));
    assert_eq!(opts1.level, Some(1u32));
    assert_eq!(opts1.exclusive, Some(true));
    assert_eq!(opts1.start, None);
    assert_eq!(opts1.stop, None);

    // Test with minimal fields
    let opts2 = QueryOptions::builder()
        .name("simple-task".to_string())
        .build();

    assert_eq!(opts2.name, Some("simple-task".to_string()));
    assert_eq!(opts2.level, None);
    assert_eq!(opts2.exclusive, None);

    // Test with datetime fields
    let start_time = now();
    let stop_time = start_time + hours(1);

    let opts3 = QueryOptions::builder()
        .start(start_time)
        .stop(stop_time)
        .build();

    assert_eq!(opts3.start, Some(start_time));
    assert_eq!(opts3.stop, Some(stop_time));
    assert_eq!(opts3.name, None);
}

#[test]
fn test_query_options_extensible_matcher() {
    let mut manager = ScheduleManager::new();
    let start = now();
    let end = start + hours(1);

    let _ = manager.create_schedule(
        Schedule {
            start,
            end,
            level: 1,
            exclusive: false,
            name: "alpha".into(),
        },
        HashSet::new(),
    );
    let _ = manager.create_schedule(
        Schedule {
            start,
            end,
            level: 1,
            exclusive: false,
            name: "beta".into(),
        },
        HashSet::new(),
    );

    let opts = QueryOptions::default();
    let out = manager.query_schedule_matching(opts, |t: &Schedule| t.name.starts_with('a'));
    assert!(out.iter().all(|(_, t)| t.name.starts_with('a')));
    assert_eq!(out.len(), 1);
}

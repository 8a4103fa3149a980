#![allow(dead_code, unused_imports, unused_variables, unused_mut)]

use chrono::Utc;
use std::collections::{BTreeSet, HashSet};
use uni_schedule::interval::{timestamp_from_parts, Interval, ScheduleId, Timestamp};
use uni_schedule::lapper::Lapper;
use uni_schedule::manager::ScheduleManager;
use uni_schedule::query::QueryOptions;
use uni_schedule::schedule::{Schedule, ScheduleError};
use uuid::Uuid;

fn now() -> Timestamp {
    let t = Utc::now();
    timestamp_from_parts(t.timestamp(), t.timestamp_subsec_nanos())
}

fn new_id() -> ScheduleId {
    Uuid::now_v7().as_u128()
}

fn nanoseconds(n: i64) -> i128 {
    n as i128
}

fn microseconds(n: i64) -> i128 {
    n as i128 * 1_000
}

fn milliseconds(n: i64) -> i128 {
    n as i128 * 1_000_000
}

fn seconds(n: i64) -> i128 {
    n as i128 * 1_000_000_000
}

fn minutes(n: i64) -> i128 {
    seconds(n) * 60
}

fn hours(n: i64) -> i128 {
    minutes(n) * 60
}

fn days(n: i64) -> i128 {
    hours(n) * 24
}

fn lapper_of(set: BTreeSet<Interval>) -> Lapper {
    Lapper::new(set.iter().map(|iv| iv.key()).collect())
}

fn create_interval(start: Timestamp, duration_hours: i64) -> Interval {
    Interval { start, stop: start + hours(duration_hours), val: new_id() }
}

fn create_interval_with_id(start: Timestamp, duration_hours: i64, id: ScheduleId) -> Interval {
    Interval { start, stop: start + hours(duration_hours), val: id }
}

#[test]
fn schedule_new_validates_start_before_stop() {
    let start = now();
    let id = new_id();

    // Valid interval
    assert!(Interval::new(start, start + hours(1), id).is_ok());

    // Invalid: start == stop
    assert!(Interval::new(start, start, id).is_err());

    // Invalid: start > stop
    assert!(Interval::new(start + hours(1), start, id).is_err());
}

#[test]
fn schedule_new_validates_extreme_time_ranges() {
    let id = new_id();

    // Test with very distant past and future
    let year_1970 = timestamp_from_parts(0, 0);
    let year_2100 = timestamp_from_parts(4102444800, 0);

    // Valid extreme range
    assert!(Interval::new(year_1970, year_2100, id).is_ok());

    // Invalid: future before past
    assert!(Interval::new(year_2100, year_1970, id).is_err());
}

#[test]
fn schedule_new_validates_minimal_duration() {
    let start = now();
    let id = new_id();

    // Minimal valid duration (1 nanosecond)
    assert!(Interval::new(start, start + nanoseconds(1), id).is_ok());

    // Invalid: negative duration
    assert!(Interval::new(start, start - nanoseconds(1), id).is_err());
}

#[test]
fn schedule_overlap_detects_overlapping_ranges() {
    let start = now();
    let interval = create_interval_with_id(
        start + hours(1),
        2, // duration: 1 hour to 3 hours
        new_id(),
    );

    // No overlap: query ends before interval starts
    assert!(!interval.overlap(start, start + hours(1)));

    // No overlap: query starts after interval ends
    assert!(!interval.overlap(start + hours(3), start + hours(4)));

    // Overlap: query starts before and ends during interval
    assert!(interval.overlap(start, start + hours(2)));

    // Overlap: query starts during and ends after interval
    assert!(interval.overlap(start + hours(2), start + hours(4)));

    // Overlap: query completely contains interval
    assert!(interval.overlap(start, start + hours(4)));

    // Overlap: interval completely contains query
    assert!(interval.overlap(
        start + hours(1) + minutes(30),
        start + hours(2) + minutes(30)
    ));
}

#[test]
fn schedule_overlap_with_minimal_durations() {
    let start = now();
    let id = new_id();

    // Interval with 1 nanosecond duration
    let tiny_interval = Interval {
        start,
        stop: start + nanoseconds(1),
        val: id,
    };

    // Should overlap with itself
    assert!(tiny_interval.overlap(start, start + nanoseconds(1)));

    // Should not overlap with adjacent nanosecond
    assert!(!tiny_interval.overlap(
        start + nanoseconds(1),
        start + nanoseconds(2)
    ));

    // Should overlap with containing range
    assert!(tiny_interval.overlap(start - seconds(1), start + seconds(1)));
}

#[test]
fn schedule_overlap_with_same_uuid_different_times() {
    let start = now();
    let id = new_id();

    let interval1 = Interval {
        start,
        stop: start + hours(1),
        val: id,
    };

    let interval2 = Interval {
        start: start + hours(2),
        stop: start + hours(3),
        val: id, // Same UUID, different time
    };

    // They shouldn't overlap with each other
    assert!(!interval1.overlap(interval2.start, interval2.stop));
    assert!(!interval2.overlap(interval1.start, interval1.stop));
}

#[test]
fn schedule_overlap_respects_half_open_intervals() {
    let start = now();
    let interval = create_interval_with_id(
        start + hours(1),
        2, // [1h, 3h)
        new_id(),
    );

    // Edge case: query starts exactly when interval ends (no overlap)
    assert!(!interval.overlap(start + hours(3), start + hours(4)));

    // Edge case: query ends exactly when interval starts (no overlap)
    assert!(!interval.overlap(start, start + hours(1)));
}

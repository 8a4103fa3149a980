//! Schedules, the errors of the manager, and what a query may ask for.

use crate::interval::{Interval, ScheduleId, Timestamp};
use vstd::prelude::*;
use vstd::string::StringExecFns;

verus! {

/// The rank of a schedule in the hierarchy; lower numbers are nearer the
/// root.
pub type ScheduleLevel = u32;

/// A named record occupying the half-open range `[start, end)` at a level.
#[derive(Debug)]
pub struct Schedule {
    /// The first instant of the range.
    pub start: Timestamp,
    /// The first instant after the range.
    pub end: Timestamp,
    /// The rank in the hierarchy; a parent has a strictly lower level.
    pub level: ScheduleLevel,
    /// Whether the schedule forbids what is not its descendant from
    /// overlapping it at its level or below.
    pub exclusive: bool,
    /// A name for people to read.
    pub name: String,
}

impl Clone for Schedule {
    fn clone(&self) -> (s: Self)
        ensures
            s == *self,
    {
        Schedule {
            start: self.start,
            end: self.end,
            level: self.level,
            exclusive: self.exclusive,
            name: self.name.clone(),
        }
    }
}

impl Schedule {
    /// The interval under which the schedule `id` with these bounds stands
    /// in the indices.
    pub open spec fn span(self, id: ScheduleId) -> Interval {
        Interval { start: self.start, stop: self.end, val: id }
    }

    /// Whether the range shares an instant with `[start, stop)`.
    pub open spec fn overlaps(self, start: Timestamp, stop: Timestamp) -> bool {
        self.start < stop && self.end > start
    }

    /// A schedule with the given fields.
    pub fn new(
        start: Timestamp,
        end: Timestamp,
        level: ScheduleLevel,
        exclusive: bool,
        name: String,
    ) -> (s: Schedule)
        ensures
            s == (Schedule { start, end, level, exclusive, name }),
    {
        Schedule { start, end, level, exclusive, name }
    }

    /// The first instant of the range.
    pub fn start(&self) -> (t: Timestamp)
        ensures
            t == self.start,
    {
        self.start
    }

    /// The first instant after the range.
    pub fn end(&self) -> (t: Timestamp)
        ensures
            t == self.end,
    {
        self.end
    }

    /// The rank in the hierarchy.
    pub fn level(&self) -> (l: ScheduleLevel)
        ensures
            l == self.level,
    {
        self.level
    }

    /// Whether the schedule is exclusive.
    pub fn exclusive(&self) -> (b: bool)
        ensures
            b == self.exclusive,
    {
        self.exclusive
    }

    /// The name of the schedule.
    pub fn name(&self) -> (n: &str)
        ensures
            n@ == self.name@,
    {
        self.name.as_str()
    }

    /// The interval under which the schedule `id` with these bounds stands
    /// in the indices.
    pub fn interval(&self, id: ScheduleId) -> (iv: Interval)
        ensures
            iv == self.span(id),
    {
        Interval { start: self.start, stop: self.end, val: id }
    }
}

/// Why the manager refused an operation.
#[derive(Debug, PartialEq, Eq, Clone)]
pub enum ScheduleError {
    /// The range is empty or reversed.
    StartAfterEnd,
    /// A parent's level is not strictly lower than the schedule's.
    LevelExceedsParent,
    /// The range does not lie within a parent's range.
    TimeRangeExceedsParent,
    /// A parent id names no schedule of the manager.
    ParentNotFound,
    /// The range overlaps a schedule that exclusivity keeps it away from.
    TimeRangeOverlaps,
    /// The id names no schedule of the manager.
    ScheduleNotFound,
    /// The id is taken, or no free id was found.
    DuplicateId,
    /// The store failed after the change was made in memory.
    StorageError(String),
    /// An invariant of the manager was found broken.
    InternalError(String),
}

impl ScheduleError {
    /// The text that describes the error: a fixed sentence for each kind,
    /// followed by the detail where the kind carries one.
    pub open spec fn spec_message(self) -> Seq<char> {
        match self {
            ScheduleError::StartAfterEnd => "Start time is later than end time"@,
            ScheduleError::LevelExceedsParent => "Schedule level is too high compared to parent"@,
            ScheduleError::TimeRangeExceedsParent => "Time range exceeds parent schedule"@,
            ScheduleError::ParentNotFound => "Parent not found"@,
            ScheduleError::TimeRangeOverlaps => "Time range overlaps with existing schedule"@,
            ScheduleError::ScheduleNotFound => "Schedule not found"@,
            ScheduleError::DuplicateId => "Duplicate schedule id generation failure"@,
            ScheduleError::StorageError(detail) => "Storage error: "@ + detail@,
            ScheduleError::InternalError(detail) => "Internal error: "@ + detail@,
        }
    }

    /// The text that describes the error.
    pub fn message(&self) -> (text: String)
        ensures
            text@ == self.spec_message(),
    {
        match self {
            ScheduleError::StartAfterEnd => "Start time is later than end time".to_string(),
            ScheduleError::LevelExceedsParent => {
                "Schedule level is too high compared to parent".to_string()
            },
            ScheduleError::TimeRangeExceedsParent => {
                "Time range exceeds parent schedule".to_string()
            },
            ScheduleError::ParentNotFound => "Parent not found".to_string(),
            ScheduleError::TimeRangeOverlaps => {
                "Time range overlaps with existing schedule".to_string()
            },
            ScheduleError::ScheduleNotFound => "Schedule not found".to_string(),
            ScheduleError::DuplicateId => "Duplicate schedule id generation failure".to_string(),
            ScheduleError::StorageError(detail) => {
                "Storage error: ".to_string().concat(detail.as_str())
            },
            ScheduleError::InternalError(detail) => {
                "Internal error: ".to_string().concat(detail.as_str())
            },
        }
    }
}

} // verus!

//! What a query may ask for, and which schedules it selects.

use crate::interval::Timestamp;
use crate::schedule::{Schedule, ScheduleLevel};
use crate::text::{is_substring, str_contains};
use vstd::prelude::*;

verus! {

/// The filters of a query. A filter that is `None` lets every schedule
/// pass.
#[derive(Debug, Clone)]
pub struct QueryOptions {
    /// Keeps the schedules whose name contains this text; the comparison is
    /// case-sensitive.
    pub name: Option<String>,
    /// The start of the time window.
    pub start: Option<Timestamp>,
    /// The end of the time window.
    pub stop: Option<Timestamp>,
    /// Keeps the schedules at exactly this level.
    pub level: Option<ScheduleLevel>,
    /// Keeps the exclusive schedules, or those that are not.
    pub exclusive: Option<bool>,
}

/// Whether the range `[start, end)` passes the time window. With both
/// bounds the range must overlap `[from, to)`; with `from` alone it must
/// end after it; with `to` alone it must start before it.
pub open spec fn in_window(
    start: Timestamp,
    end: Timestamp,
    from: Option<Timestamp>,
    to: Option<Timestamp>,
) -> bool {
    match (from, to) {
        (Some(a), Some(b)) => start < b && end > a,
        (Some(a), None) => end > a,
        (None, Some(b)) => start < b,
        (None, None) => true,
    }
}

impl QueryOptions {
    /// The options that let every schedule pass.
    pub open spec fn unfiltered() -> QueryOptions {
        QueryOptions { name: None, start: None, stop: None, level: None, exclusive: None }
    }

    /// Whether the schedule passes the filters on level and exclusivity.
    pub open spec fn selects_kind(self, s: Schedule) -> bool {
        &&& (self.level is Some ==> s.level == self.level->0)
        &&& (self.exclusive is Some ==> s.exclusive == self.exclusive->0)
    }

    /// Whether the schedule passes the filters on name and time.
    pub open spec fn selects_content(self, s: Schedule) -> bool {
        &&& (self.name is Some ==> is_substring(self.name->0@, s.name@))
        &&& in_window(s.start, s.end, self.start, self.stop)
    }

    /// Whether the schedule passes every filter.
    pub open spec fn selects(self, s: Schedule) -> bool {
        self.selects_kind(s) && self.selects_content(s)
    }

    /// Whether the schedule passes the filters on name and time.
    pub fn accepts_content(&self, s: &Schedule) -> (b: bool)
        ensures
            b == self.selects_content(*s),
    {
        match &self.name {
            Some(text) => {
                if !str_contains(s.name.as_str(), text.as_str()) {
                    return false;
                }
            },
            None => {},
        }
        match (self.start, self.stop) {
            (Some(a), Some(b)) => s.start < b && s.end > a,
            (Some(a), None) => s.end > a,
            (None, Some(b)) => s.start < b,
            (None, None) => true,
        }
    }

    /// A builder that starts from the options that let every schedule pass.
    pub fn builder() -> (b: QueryOptionsBuilder)
        ensures
            b.options == QueryOptions::unfiltered(),
    {
        QueryOptionsBuilder {
            options: QueryOptions {
                name: None,
                start: None,
                stop: None,
                level: None,
                exclusive: None,
            },
        }
    }
}

impl Default for QueryOptions {
    fn default() -> (o: QueryOptions)
        ensures
            o == QueryOptions::unfiltered(),
    {
        QueryOptions { name: None, start: None, stop: None, level: None, exclusive: None }
    }
}

/// Sets the filters of a query one at a time.
pub struct QueryOptionsBuilder {
    pub options: QueryOptions,
}

impl QueryOptionsBuilder {
    /// Keeps the schedules whose name contains `name`.
    pub fn name(self, name: String) -> (b: QueryOptionsBuilder)
        ensures
            b.options == (QueryOptions { name: Some(name), ..self.options }),
    {
        let mut b = self;
        b.options.name = Some(name);
        b
    }

    /// Sets the start of the time window.
    pub fn start(self, start: Timestamp) -> (b: QueryOptionsBuilder)
        ensures
            b.options == (QueryOptions { start: Some(start), ..self.options }),
    {
        let mut b = self;
        b.options.start = Some(start);
        b
    }

    /// Sets the end of the time window.
    pub fn stop(self, stop: Timestamp) -> (b: QueryOptionsBuilder)
        ensures
            b.options == (QueryOptions { stop: Some(stop), ..self.options }),
    {
        let mut b = self;
        b.options.stop = Some(stop);
        b
    }

    /// Keeps the schedules at exactly `level`.
    pub fn level(self, level: ScheduleLevel) -> (b: QueryOptionsBuilder)
        ensures
            b.options == (QueryOptions { level: Some(level), ..self.options }),
    {
        let mut b = self;
        b.options.level = Some(level);
        b
    }

    /// Keeps the exclusive schedules, or those that are not.
    pub fn exclusive(self, exclusive: bool) -> (b: QueryOptionsBuilder)
        ensures
            b.options == (QueryOptions { exclusive: Some(exclusive), ..self.options }),
    {
        let mut b = self;
        b.options.exclusive = Some(exclusive);
        b
    }

    /// The options as set so far.
    pub fn build(self) -> (o: QueryOptions)
        ensures
            o == self.options,
    {
        self.options
    }
}

} // verus!

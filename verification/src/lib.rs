//! A hierarchical index of time ranges.
//!
//! A [`ScheduleManager`] holds named schedules. Each occupies a half-open
//! range `[start, end)` at an integer level, may be exclusive, and may have
//! parents of lower level whose ranges contain its own. The manager decides
//! whether a new schedule may be admitted, deletes schedules together with
//! the descendants that lose their last parent, and answers queries. Under
//! it, for each level, a [`Lapper`] keeps the ranges in a sorted set and in
//! an augmented AVL tree and answers which of them overlap a range.

mod collections;
mod ids;
pub mod interval;
mod keyorder;
pub mod lapper;
pub mod manager;
pub mod model;
pub mod paths;
pub mod query;
pub mod record;
pub mod schedule;
pub mod store;
pub mod tables;
pub mod text;
pub mod tree;
pub mod walk;

pub use interval::{Interval, ScheduleId, Timestamp};
pub use lapper::Lapper;
pub use manager::ScheduleManager;
pub use query::QueryOptions;
pub use record::{BackendScheduleError, ScheduleModel};
pub use schedule::{Schedule, ScheduleError, ScheduleLevel};
pub use store::{MockStorage, PersistentManager, Storage};
pub use walk::OverlapIter;

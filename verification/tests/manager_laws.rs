use std::collections::HashSet;
use uni_schedule::interval::{ScheduleId, Timestamp};
use uni_schedule::manager::{DrawVerdict, ScheduleManager, MAX_ID_ATTEMPTS};
use uni_schedule::query::QueryOptions;
use uni_schedule::schedule::{Schedule, ScheduleError};

const HOUR: Timestamp = 3_600_000_000_000;

fn at(hour: i128, minute: i128) -> Timestamp {
    1_700_000_000_000_000_000 + hour * HOUR + minute * HOUR / 60
}

fn sched(from: i128, to: i128, level: u32, exclusive: bool, name: &str) -> Schedule {
    Schedule { start: at(from, 0), end: at(to, 0), level, exclusive, name: name.to_string() }
}

fn set(ids: &[ScheduleId]) -> HashSet<ScheduleId> {
    ids.iter().copied().collect()
}

fn ids_of(found: &[(ScheduleId, Schedule)]) -> HashSet<ScheduleId> {
    found.iter().map(|(id, _)| *id).collect()
}

fn relation(
    map: &std::collections::HashMap<ScheduleId, HashSet<ScheduleId>>,
    id: ScheduleId,
) -> HashSet<ScheduleId> {
    map.get(&id).cloned().unwrap_or_default()
}

fn relations_mirror(m: &ScheduleManager, ids: &[ScheduleId]) -> bool {
    ids.iter().all(|p| {
        ids.iter().all(|c| {
            relation(m.child_relations(), *p).contains(c)
                == relation(m.parent_relations(), *c).contains(p)
        })
    })
}

#[test]
fn hierarchy_happy_path_and_range_outside_the_parent() {
    let mut m = ScheduleManager::new();
    let p1 = m.create_schedule(sched(10, 14, 1, false, "p1"), set(&[])).unwrap();
    let c1 = m.create_schedule(sched(11, 12, 2, false, "c1"), set(&[p1]));
    assert!(c1.is_ok());
    let c2 = m.create_schedule(sched(9, 12, 2, false, "c2"), set(&[p1]));
    assert_eq!(c2, Err(ScheduleError::TimeRangeExceedsParent));
    let c3 = m.create_schedule(sched(13, 15, 2, false, "c3"), set(&[p1]));
    assert_eq!(c3, Err(ScheduleError::TimeRangeExceedsParent));
    let c4 = m.create_schedule(sched(10, 14, 2, false, "c4"), set(&[p1]));
    assert!(c4.is_ok());
}

#[test]
fn exclusive_parent_permits_its_children_only() {
    let mut m = ScheduleManager::new();
    let p = m.create_schedule(sched(10, 14, 1, true, "p"), set(&[])).unwrap();
    let c = m.create_schedule(sched(11, 12, 2, false, "c"), set(&[p]));
    assert!(c.is_ok());
    let u = m.create_schedule(
        Schedule {
            start: at(11, 30),
            end: at(12, 30),
            level: 2,
            exclusive: false,
            name: "u".to_string(),
        },
        set(&[]),
    );
    assert_eq!(u, Err(ScheduleError::TimeRangeOverlaps));
    let touching = m.create_schedule(sched(14, 15, 2, false, "t"), set(&[]));
    assert!(touching.is_ok());
    let above = m.create_schedule(sched(11, 12, 0, false, "a"), set(&[]));
    assert!(above.is_ok());
}

#[test]
fn an_exclusive_newcomer_is_blocked_by_what_lies_at_its_level_or_below() {
    let mut m = ScheduleManager::new();
    let low = m.create_schedule(sched(10, 12, 3, false, "low"), set(&[])).unwrap();
    assert_eq!(
        m.create_schedule(sched(11, 13, 2, true, "x"), set(&[])),
        Err(ScheduleError::TimeRangeOverlaps)
    );
    assert_eq!(
        m.create_schedule(sched(11, 13, 3, true, "x"), set(&[])),
        Err(ScheduleError::TimeRangeOverlaps)
    );
    assert!(m.create_schedule(sched(11, 13, 4, true, "x"), set(&[])).is_ok());
    assert!(m.get_schedule(low).is_some());
}

#[test]
fn cascade_deletion_takes_the_orphans() {
    let mut m = ScheduleManager::new();
    let p = m.create_schedule(sched(10, 14, 1, false, "p"), set(&[])).unwrap();
    let c1 = m.create_schedule(sched(10, 11, 2, false, "c1"), set(&[p])).unwrap();
    let c2 = m.create_schedule(sched(12, 13, 2, false, "c2"), set(&[p])).unwrap();
    let g = m.create_schedule(sched(12, 13, 3, false, "g"), set(&[c2])).unwrap();
    let other = m.create_schedule(sched(20, 21, 5, false, "o"), set(&[])).unwrap();
    assert_eq!(m.delete_schedule(p), Ok(set(&[p, c1, c2, g])));
    assert!(m.get_schedule(c1).is_none());
    assert!(m.get_schedule(g).is_none());
    assert!(m.get_schedule(other).is_some());
    assert_eq!(ids_of(&m.query_schedule(QueryOptions::default())), set(&[other]));
    assert!(m.parent_relations().get(&c1).is_none());
    assert!(m.child_relations().get(&p).is_none());
}

#[test]
fn a_child_with_two_parents_survives_the_first_deletion() {
    let mut m = ScheduleManager::new();
    let p1 = m.create_schedule(sched(10, 14, 1, false, "p1"), set(&[])).unwrap();
    let p2 = m.create_schedule(sched(10, 15, 1, false, "p2"), set(&[])).unwrap();
    let c = m.create_schedule(sched(11, 12, 2, false, "c"), set(&[p1, p2])).unwrap();
    assert_eq!(m.delete_schedule(p1), Ok(set(&[p1])));
    assert!(m.get_schedule(c).is_some());
    assert_eq!(relation(m.parent_relations(), c), set(&[p2]));
    assert_eq!(m.delete_schedule(p2), Ok(set(&[p2, c])));
    assert!(m.get_schedule(c).is_none());
}

#[test]
fn a_chain_below_a_shared_parent_goes_whichever_way_the_children_are_visited() {
    let mut m = ScheduleManager::new();
    let p1 = m.create_schedule(sched(0, 24, 1, false, "p1"), set(&[])).unwrap();
    let p2 = m.create_schedule(sched(0, 24, 2, false, "p2"), set(&[p1])).unwrap();
    let c = m.create_schedule(sched(1, 2, 3, false, "c"), set(&[p1, p2])).unwrap();
    assert_eq!(m.delete_schedule(p1), Ok(set(&[p1, p2, c])));
    assert!(m.query_schedule(QueryOptions::default()).is_empty());
}

#[test]
fn deleting_a_child_takes_it_out_of_its_parents_children() {
    let mut m = ScheduleManager::new();
    let p = m.create_schedule(sched(10, 14, 1, false, "p"), set(&[])).unwrap();
    let c = m.create_schedule(sched(11, 12, 2, false, "c"), set(&[p])).unwrap();
    assert_eq!(relation(m.child_relations(), p), set(&[c]));
    assert!(relations_mirror(&m, &[p, c]));
    assert_eq!(m.delete_schedule(c), Ok(set(&[c])));
    assert_eq!(relation(m.child_relations(), p), set(&[]));
    assert!(relations_mirror(&m, &[p, c]));
    let again = m.create_schedule_with_id(c, sched(11, 12, 2, false, "c"), set(&[]));
    assert_eq!(again, Ok(c));
    assert_eq!(m.delete_schedule(p), Ok(set(&[p])));
    assert!(m.get_schedule(c).is_some());
}

#[test]
fn every_validation_error_has_an_input_that_gives_it() {
    let mut m = ScheduleManager::new();
    let p = m.create_schedule(sched(10, 14, 3, true, "p"), set(&[])).unwrap();
    assert_eq!(
        m.create_schedule(sched(5, 5, 1, false, "x"), set(&[])),
        Err(ScheduleError::StartAfterEnd)
    );
    assert_eq!(
        m.create_schedule(sched(6, 5, 1, false, "x"), set(&[999])),
        Err(ScheduleError::StartAfterEnd)
    );
    assert_eq!(
        m.create_schedule(sched(11, 12, 4, false, "x"), set(&[p + 1])),
        Err(ScheduleError::ParentNotFound)
    );
    assert_eq!(
        m.create_schedule(sched(11, 12, 3, false, "x"), set(&[p])),
        Err(ScheduleError::LevelExceedsParent)
    );
    assert_eq!(
        m.create_schedule(sched(11, 15, 4, false, "x"), set(&[p])),
        Err(ScheduleError::TimeRangeExceedsParent)
    );
    assert_eq!(
        m.create_schedule(sched(11, 12, 4, false, "x"), set(&[])),
        Err(ScheduleError::TimeRangeOverlaps)
    );
    assert_eq!(m.delete_schedule(p + 1), Err(ScheduleError::ScheduleNotFound));
    assert_eq!(m.add_parents(p + 1, set(&[p])), Err(ScheduleError::ScheduleNotFound));
    assert_eq!(
        m.create_schedule_with_id(p, sched(30, 31, 1, false, "x"), set(&[])),
        Err(ScheduleError::DuplicateId)
    );
    assert_eq!(
        m.create_schedule_with_id(p, sched(31, 30, 1, false, "x"), set(&[])),
        Err(ScheduleError::DuplicateId)
    );
    assert_eq!(ids_of(&m.query_schedule(QueryOptions::default())), set(&[p]));
}

#[test]
fn validation_answers_without_changing_anything() {
    let mut m = ScheduleManager::new();
    let p = m.create_schedule(sched(10, 14, 1, true, "p"), set(&[])).unwrap();
    assert_eq!(m.validate_schedule(&sched(11, 12, 2, false, "c"), &set(&[p])), Ok(()));
    assert_eq!(
        m.validate_schedule(&sched(11, 12, 2, false, "c"), &set(&[])),
        Err(ScheduleError::TimeRangeOverlaps)
    );
    assert_eq!(
        m.validate_schedule(&sched(11, 12, 1, false, "c"), &set(&[p])),
        Err(ScheduleError::LevelExceedsParent)
    );
    assert_eq!(m.query_schedule(QueryOptions::default()).len(), 1);
}

#[test]
fn create_draws_a_new_id_each_time() {
    let mut m = ScheduleManager::new();
    let mut seen = HashSet::new();
    for n in 0..50 {
        let id = m.create_schedule(sched(n, n + 1, 1, false, "s"), set(&[])).unwrap();
        assert!(seen.insert(id));
        assert_eq!(m.get_schedule(id).map(|s| s.start), Some(at(n, 0)));
    }
    assert_eq!(m.query_schedule(QueryOptions::default()).len(), 50);
    assert_eq!(MAX_ID_ATTEMPTS, 16);
}

#[test]
fn add_parents_merges_into_both_relations() {
    let mut m = ScheduleManager::new();
    let p1 = m.create_schedule(sched(10, 14, 1, false, "p1"), set(&[])).unwrap();
    let p2 = m.create_schedule(sched(10, 15, 1, false, "p2"), set(&[])).unwrap();
    let c = m.create_schedule(sched(11, 12, 2, false, "c"), set(&[p1])).unwrap();
    assert_eq!(m.add_parents(c, set(&[p2])), Ok(()));
    assert_eq!(relation(m.parent_relations(), c), set(&[p1, p2]));
    assert_eq!(relation(m.child_relations(), p1), set(&[c]));
    assert_eq!(relation(m.child_relations(), p2), set(&[c]));
    assert!(relations_mirror(&m, &[p1, p2, c]));
    assert_eq!(m.add_parents(c, set(&[c])), Err(ScheduleError::LevelExceedsParent));
    assert_eq!(m.add_parents(c, set(&[77])), Err(ScheduleError::ParentNotFound));
    assert_eq!(relation(m.parent_relations(), c), set(&[p1, p2]));
    assert_eq!(m.delete_schedule(p1), Ok(set(&[p1])));
    assert_eq!(m.delete_schedule(p2), Ok(set(&[p2, c])));
}

#[test]
fn add_parents_to_an_exclusive_schedule_meets_the_schedule_itself() {
    let mut m = ScheduleManager::new();
    let p = m.create_schedule(sched(10, 14, 1, false, "p"), set(&[])).unwrap();
    let x = m.create_schedule(sched(11, 12, 2, true, "x"), set(&[])).unwrap();
    assert_eq!(m.add_parents(x, set(&[p])), Err(ScheduleError::TimeRangeOverlaps));
    assert_eq!(relation(m.parent_relations(), x), set(&[]));
}

#[test]
fn query_planner_by_level_and_exclusivity() {
    let mut m = ScheduleManager::new();
    let a = m.create_schedule(sched(0, 1, 1, false, "A"), set(&[])).unwrap();
    let b = m.create_schedule(sched(2, 3, 2, true, "B"), set(&[])).unwrap();
    let c = m.create_schedule(sched(4, 5, 2, false, "C"), set(&[])).unwrap();
    let ask = |level: Option<u32>, exclusive: Option<bool>| {
        let found = m.query_schedule(QueryOptions {
            level,
            exclusive,
            ..QueryOptions::default()
        });
        assert_eq!(found.len(), ids_of(&found).len());
        ids_of(&found)
    };
    assert_eq!(ask(Some(2), Some(true)), set(&[b]));
    assert_eq!(ask(Some(2), Some(false)), set(&[c]));
    assert_eq!(ask(Some(2), None), set(&[b, c]));
    assert_eq!(ask(Some(1), Some(true)), set(&[]));
    assert_eq!(ask(Some(7), None), set(&[]));
    assert_eq!(ask(Some(7), Some(false)), set(&[]));
    assert_eq!(ask(None, Some(true)), set(&[b]));
    assert_eq!(ask(None, Some(false)), set(&[a, c]));
    assert_eq!(ask(None, None), set(&[a, b, c]));
}

#[test]
fn query_time_window_in_its_four_forms() {
    let mut m = ScheduleManager::new();
    let a = m.create_schedule(sched(0, 2, 1, false, "a"), set(&[])).unwrap();
    let b = m.create_schedule(sched(2, 4, 1, false, "b"), set(&[])).unwrap();
    let c = m.create_schedule(sched(4, 6, 1, false, "c"), set(&[])).unwrap();
    let ask = |start: Option<Timestamp>, stop: Option<Timestamp>| {
        ids_of(&m.query_schedule(QueryOptions { start, stop, ..QueryOptions::default() }))
    };
    assert_eq!(ask(Some(at(2, 0)), Some(at(4, 0))), set(&[b]));
    assert_eq!(ask(Some(at(1, 0)), Some(at(5, 0))), set(&[a, b, c]));
    assert_eq!(ask(Some(at(3, 0)), Some(at(3, 0))), set(&[b]));
    assert_eq!(ask(Some(at(4, 0)), Some(at(2, 0))), set(&[]));
    assert_eq!(ask(Some(at(2, 0)), None), set(&[b, c]));
    assert_eq!(ask(Some(at(6, 0)), None), set(&[]));
    assert_eq!(ask(None, Some(at(2, 0))), set(&[a]));
    assert_eq!(ask(None, Some(at(0, 0))), set(&[]));
    assert_eq!(ask(None, None), set(&[a, b, c]));
}

#[test]
fn query_by_name_is_a_case_sensitive_substring_search() {
    let mut m = ScheduleManager::new();
    let a = m.create_schedule(sched(0, 1, 1, false, "Team meeting"), set(&[])).unwrap();
    let b = m.create_schedule(sched(2, 3, 1, false, "meet"), set(&[])).unwrap();
    let c = m.create_schedule(sched(4, 5, 1, false, "MEETING"), set(&[])).unwrap();
    let ask = |name: &str| {
        ids_of(&m.query_schedule(QueryOptions::builder().name(name.to_string()).build()))
    };
    assert_eq!(ask("meet"), set(&[a, b]));
    assert_eq!(ask("meeting"), set(&[a]));
    assert_eq!(ask("MEET"), set(&[c]));
    assert_eq!(ask(""), set(&[a, b, c]));
    assert_eq!(ask("meetings"), set(&[]));
    assert_eq!(ask("m m"), set(&[a]));
}

#[test]
fn query_with_a_matcher_keeps_what_the_matcher_accepts() {
    let mut m = ScheduleManager::new();
    let a = m.create_schedule(sched(0, 1, 1, false, "a"), set(&[])).unwrap();
    let b = m.create_schedule(sched(2, 3, 2, false, "b"), set(&[])).unwrap();
    let c = m.create_schedule(sched(4, 5, 2, false, "c"), set(&[])).unwrap();
    let long_name = |s: &Schedule| s.name != "b";
    let found = m.query_schedule_matching(QueryOptions::builder().level(2).build(), long_name);
    assert_eq!(ids_of(&found), set(&[c]));
    let all = m.query_schedule_matching(QueryOptions::default(), |_s: &Schedule| true);
    assert_eq!(ids_of(&all), set(&[a, b, c]));
    let none = m.query_schedule_matching(QueryOptions::default(), |_s: &Schedule| false);
    assert!(none.is_empty());
}

#[test]
fn query_returns_the_schedules_as_stored() {
    let mut m = ScheduleManager::new();
    let a = m.create_schedule(sched(0, 1, 9, true, "kept"), set(&[])).unwrap();
    let found = m.query_schedule(QueryOptions::default());
    assert_eq!(found.len(), 1);
    let (id, s) = &found[0];
    assert_eq!(*id, a);
    assert_eq!((s.start, s.end, s.level, s.exclusive, s.name.as_str()), (
        at(0, 0),
        at(1, 0),
        9,
        true,
        "kept"
    ));
    assert_eq!(s.start(), at(0, 0));
    assert_eq!(s.end(), at(1, 0));
    assert_eq!(s.level(), 9);
    assert!(s.exclusive());
    assert_eq!(s.name(), "kept");
    assert_eq!(s.interval(a).val, a);
}

#[test]
fn the_builder_sets_the_filters_it_is_given() {
    let o = QueryOptions::builder().start(at(1, 0)).stop(at(2, 0)).exclusive(false).build();
    assert_eq!(o.start, Some(at(1, 0)));
    assert_eq!(o.stop, Some(at(2, 0)));
    assert_eq!(o.exclusive, Some(false));
    assert_eq!(o.level, None);
    assert_eq!(o.name, None);
    let d = QueryOptions::default();
    assert!(d.name.is_none() && d.start.is_none() && d.stop.is_none());
    assert!(d.level.is_none() && d.exclusive.is_none());
}

#[test]
fn error_texts() {
    assert_eq!(ScheduleError::StartAfterEnd.message(), "Start time is later than end time");
    assert_eq!(
        ScheduleError::LevelExceedsParent.message(),
        "Schedule level is too high compared to parent"
    );
    assert_eq!(
        ScheduleError::TimeRangeExceedsParent.message(),
        "Time range exceeds parent schedule"
    );
    assert_eq!(ScheduleError::ParentNotFound.message(), "Parent not found");
    assert_eq!(
        ScheduleError::TimeRangeOverlaps.message(),
        "Time range overlaps with existing schedule"
    );
    assert_eq!(ScheduleError::ScheduleNotFound.message(), "Schedule not found");
    assert_eq!(ScheduleError::DuplicateId.message(), "Duplicate schedule id generation failure");
    assert_eq!(
        ScheduleError::StorageError("disk full".to_string()).message(),
        "Storage error: disk full"
    );
    assert_eq!(
        ScheduleError::InternalError("index out of step".to_string()).message(),
        "Internal error: index out of step"
    );
}

#[test]
fn a_clone_of_the_manager_lives_on_its_own() {
    let mut m = ScheduleManager::new();
    let a = m.create_schedule(sched(0, 1, 1, true, "a"), set(&[])).unwrap();
    let mut copy = m.clone();
    assert_eq!(copy.delete_schedule(a), Ok(set(&[a])));
    assert!(m.get_schedule(a).is_some());
    assert_eq!(
        m.create_schedule(sched(0, 1, 1, false, "b"), set(&[])),
        Err(ScheduleError::TimeRangeOverlaps)
    );
    assert!(copy.create_schedule(sched(0, 1, 1, false, "b"), set(&[])).is_ok());
}

#[test]
fn add_parents_keeps_the_parents_already_held_exempt() {
    let mut m = ScheduleManager::new();
    let q = m.create_schedule(sched(10, 14, 0, false, "Q"), set(&[])).unwrap();
    let p = m.create_schedule(sched(10, 14, 1, true, "P"), set(&[])).unwrap();
    let c = m.create_schedule(sched(11, 12, 2, false, "C"), set(&[p])).unwrap();
    assert_eq!(m.add_parents(c, set(&[q])), Ok(()));
    assert_eq!(relation(m.parent_relations(), c), set(&[p, q]));
    assert!(relation(m.child_relations(), q).contains(&c));
    assert!(relation(m.child_relations(), p).contains(&c));
    assert!(relations_mirror(&m, &[q, p, c]));
    assert_eq!(m.delete_schedule(p), Ok(set(&[p])));
    assert_eq!(m.delete_schedule(q), Ok(set(&[q, c])));
}

#[test]
fn add_parents_without_new_parents_changes_nothing() {
    let mut m = ScheduleManager::new();
    let p = m.create_schedule(sched(10, 14, 1, true, "P"), set(&[])).unwrap();
    let c = m.create_schedule(sched(11, 12, 2, false, "C"), set(&[p])).unwrap();
    assert_eq!(m.add_parents(c, set(&[])), Ok(()));
    assert_eq!(relation(m.parent_relations(), c), set(&[p]));
    assert_eq!(relation(m.child_relations(), p), set(&[c]));
}

#[test]
fn add_parents_refuses_an_unsound_new_parent() {
    let mut m = ScheduleManager::new();
    let q = m.create_schedule(sched(10, 14, 0, false, "Q"), set(&[])).unwrap();
    let c = m.create_schedule(sched(11, 12, 2, false, "C"), set(&[])).unwrap();
    let x = m.create_schedule(sched(11, 13, 1, true, "X"), set(&[c])).unwrap_err();
    assert_eq!(x, ScheduleError::LevelExceedsParent);
    let late = m.create_schedule(sched(20, 24, 1, true, "late"), set(&[])).unwrap();
    assert_eq!(m.add_parents(c, set(&[late])), Err(ScheduleError::TimeRangeExceedsParent));
    assert_eq!(m.add_parents(c, set(&[q])), Ok(()));
    assert_eq!(relation(m.parent_relations(), c), set(&[q]));
}

#[test]
fn a_draw_is_accepted_or_drawn_again_or_given_up() {
    let mut m = ScheduleManager::new();
    let taken = m.create_schedule(sched(0, 1, 1, false, "a"), set(&[])).unwrap();
    let free = taken.wrapping_add(1);
    assert_eq!(m.judge_draw(free, 0), DrawVerdict::Accept(free));
    assert_eq!(m.judge_draw(free, MAX_ID_ATTEMPTS - 1), DrawVerdict::Accept(free));
    assert_eq!(m.judge_draw(free, usize::MAX), DrawVerdict::Accept(free));
    assert_eq!(m.judge_draw(taken, 0), DrawVerdict::DrawAgain);
    assert_eq!(m.judge_draw(taken, MAX_ID_ATTEMPTS - 2), DrawVerdict::DrawAgain);
    assert_eq!(m.judge_draw(taken, MAX_ID_ATTEMPTS - 1), DrawVerdict::GiveUp);
    assert_eq!(m.judge_draw(taken, usize::MAX), DrawVerdict::GiveUp);
}

#[test]
fn an_empty_manager_enters_what_it_admits() {
    for n in 0..20 {
        let mut m = ScheduleManager::new();
        let id = m.create_schedule(sched(n, n + 1, 3, n % 2 == 0, "only"), set(&[]));
        assert!(id.is_ok());
        assert_eq!(m.query_schedule(QueryOptions::default()).len(), 1);
    }
}

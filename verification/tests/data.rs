//! The parts of a database and what can be done with them.
use keepass::datetime::{NaiveDateTime, FIRST_SECOND, LAST_SECOND};
use keepass::datum::Datum;
use keepass::db::database::{Database, MoveGroupError};
use keepass::db::entry::{Entry, History};
use keepass::db::group::Group;
use keepass::db::times::Times;
use keepass::db::value::Value;
use keepass::format::xml_db::times as xml;
use keepass::format::xml_db::timestamp::{Timestamp, TimestampMode};
use keepass::ids::{push_uuid, AttachmentId, CustomIconId, EntryId, GroupId};
use keepass::merge::arrivals::get_last_update;
use keepass::merge::diverge::{have_entries_diverged, have_groups_diverged};
use keepass::merge::history::merge_history;
use keepass::merge::log::{MergeLog, Warning};
use keepass::text_map::TextMap;

const ROOT: GroupId = GroupId { uuid: 1 };
const A: GroupId = GroupId { uuid: 2 };
const B: GroupId = GroupId { uuid: 3 };
const E: EntryId = EntryId { uuid: 9 };

fn at(seconds: i64) -> NaiveDateTime {
    NaiveDateTime::from_timestamp(seconds, 0).unwrap()
}

/// root -> a -> b -> e
fn sample() -> Database {
    let mut db = Database::new_with_root_id(ROOT);
    db.add_group_with_id(ROOT, A);
    db.add_group_with_id(A, B);
    db.add_entry_with_id(B, E);
    db
}

#[test]
fn moments_are_limited_and_ordered() {
    assert!(NaiveDateTime::from_timestamp(FIRST_SECOND, 0).is_some());
    assert!(NaiveDateTime::from_timestamp(FIRST_SECOND - 1, 0).is_none());
    assert!(NaiveDateTime::from_timestamp(LAST_SECOND, 0).is_some());
    assert!(NaiveDateTime::from_timestamp(LAST_SECOND + 1, 0).is_none());
    // A leap second can only follow the last second of a minute.
    assert!(NaiveDateTime::from_timestamp(59, 1_500_000_000).is_some());
    assert!(NaiveDateTime::from_timestamp(58, 1_500_000_000).is_none());
    assert!(NaiveDateTime::from_timestamp(-1, 1_500_000_000).is_some());
    assert!(NaiveDateTime::from_timestamp(0, 2_000_000_000).is_none());

    let early = NaiveDateTime::from_timestamp(-5, 7).unwrap();
    let late = NaiveDateTime::from_timestamp(-5, 8).unwrap();
    assert!(late.after(&early) && !early.after(&late) && !early.after(&early));
    assert_eq!((early.timestamp(), early.timestamp_subsec_nanos()), (-5, 7));
    assert!(at(3).after(&late));
}

/// The limits are those of the crate that writes the moments.
#[test]
fn moments_are_those_of_chrono() {
    for seconds in [FIRST_SECOND - 1, FIRST_SECOND, -1, 0, 58, 59, 119, LAST_SECOND, LAST_SECOND + 1] {
        for nanos in [0, 999_999_999, 1_000_000_000, 1_999_999_999, 2_000_000_000] {
            assert_eq!(
                NaiveDateTime::from_timestamp(seconds, nanos).is_some(),
                chrono::DateTime::from_timestamp(seconds, nanos).is_some(),
                "{seconds} {nanos}"
            );
        }
    }
}

#[test]
fn moments_are_displayed() {
    assert_eq!(NaiveDateTime::epoch().display(), "1970-01-01 00:00:00");
    assert_eq!(at(1_700_000_000).display(), "2023-11-14 22:13:20");
    assert_eq!(NaiveDateTime::from_timestamp(1, 500_000_000).unwrap().display(), "1970-01-01 00:00:01.500");
}

#[test]
fn now_is_a_whole_second() {
    let before = chrono::Utc::now().timestamp();
    let now = NaiveDateTime::now();
    let after = chrono::Utc::now().timestamp();
    assert!(before <= now.timestamp() && now.timestamp() <= after);
    assert_eq!(now.timestamp_subsec_nanos(), 0);
}

#[test]
fn identifiers_are_written_in_groups_of_digits() {
    let mut text = "id ".to_string();
    push_uuid(&mut text, 0x0123_4567_89ab_cdef_fedc_ba98_7654_3210);
    assert_eq!(text, "id 01234567-89ab-cdef-fedc-ba9876543210");
}

#[test]
fn identifiers_carry_their_number() {
    assert_eq!(GroupId::from_uuid(5).uuid(), 5);
    assert_eq!(EntryId::from_uuid(6).uuid(), 6);
    assert_eq!(CustomIconId::from_uuid(7).uuid(), 7);
    assert_eq!(AttachmentId::new(8), AttachmentId { number: 8 });
}

#[test]
fn warnings_are_worded() {
    assert_eq!(
        Warning::DestinationVersionUndated(E).render(),
        "Destination history entry 00000000-0000-0000-0000-000000000009 did not have a last modification timestamp"
    );
    assert_eq!(
        Warning::RootGroupMoved(ROOT).render(),
        "Cannot move root group 00000000-0000-0000-0000-000000000001"
    );
}

#[test]
fn a_text_map_holds_each_key_once() {
    let mut map: TextMap<u8> = TextMap::new();
    map.insert("a".to_string(), 1);
    map.insert("b".to_string(), 2);
    map.insert("a".to_string(), 3);
    assert_eq!(map.len(), 2);
    assert_eq!(map.get("a"), Some(&3));
    let mut other: TextMap<u8> = TextMap::new();
    other.insert("b".to_string(), 2);
    assert!(!map.same(&other));
    other.insert("a".to_string(), 3);
    assert!(map.same(&other), "the order does not count");
    map.remove("a");
    assert_eq!(map.get("a"), None);
    assert_eq!(map.len(), 1);
}

#[test]
fn values_know_whether_they_are_protected() {
    let open = Value::unprotected(vec![1u8]);
    let hidden = Value::protected(vec![1u8]);
    assert!(!open.is_protected() && hidden.is_protected());
    assert_eq!(open.get(), hidden.get());
    assert!(!open.same(&hidden));
}

#[test]
fn groups_are_moved_within_the_tree() {
    let mut db = sample();
    assert_eq!(db.move_group(ROOT, A), Err(MoveGroupError::RootGroup));
    let missing = GroupId { uuid: 99 };
    assert_eq!(db.move_group(A, missing), Err(MoveGroupError::DestinationNotFound(missing)));
    assert_eq!(db.move_group(A, B), Err(MoveGroupError::IntoOwnSubtree));
    assert_eq!(db.move_group(A, A), Err(MoveGroupError::IntoOwnSubtree));
    assert_eq!(db.move_group(B, ROOT), Ok(()));
    assert_eq!(db.group(B).unwrap().parent, Some(ROOT));
    assert!(!db.is_within(B, A));
}

#[test]
fn a_group_is_removed_with_what_is_in_it() {
    let mut db = sample();
    assert!(!db.remove_group(ROOT));
    assert!(!db.remove_group(GroupId { uuid: 99 }));
    assert!(db.remove_group(A));
    assert_eq!(db.group_ids(), vec![ROOT]);
    assert_eq!(db.entry_ids(), Vec::new());
}

#[test]
fn updates_keep_the_database_consistent() {
    let mut db = sample();
    let mut entry = db.entry(E).unwrap().clone();
    entry.parent = GroupId { uuid: 99 };
    assert!(!db.update_entry(entry));
    let mut group = db.group(B).unwrap().clone();
    group.parent = Some(ROOT);
    assert!(!db.update_group(group));
    assert_eq!(db, sample());
}

#[test]
fn databases_are_compared_by_content() {
    let mut db = sample();
    let copy = db.clone();
    assert_eq!(db, copy);
    let id = db.add_attachment(Value::unprotected(vec![1]));
    assert_ne!(db, copy);
    assert_eq!(id, AttachmentId::new(0));
    assert_eq!(db.add_attachment(Value::unprotected(vec![1])), AttachmentId::new(1));
    let mut other = copy.clone();
    other.record_deletion(4, None);
    assert_ne!(other, copy);
    let mut entry = copy.entry(E).unwrap().clone();
    entry.history.as_mut().unwrap().add_entry(copy.entry(E).unwrap().clone());
    let mut archived = copy.clone();
    assert!(archived.update_entry(entry));
    assert_ne!(archived, copy);
}

#[test]
fn the_last_update_of_a_group_is_the_latest_in_it() {
    let mut db = sample();
    assert_eq!(get_last_update(&db, db.group(A).unwrap()), None);
    let mut b = db.group(B).unwrap().clone();
    b.times.location_changed = Some(at(7));
    assert!(db.update_group(b));
    assert_eq!(get_last_update(&db, db.group(A).unwrap()), Some(at(7)));
    let mut e = db.entry(E).unwrap().clone();
    e.times.last_modification = Some(at(5));
    e.times.location_changed = Some(at(50));
    assert!(db.update_entry(e));
    // Only what is directly in a group counts, and a move only where no modification is known.
    assert_eq!(get_last_update(&db, db.group(A).unwrap()), Some(at(7)));
    assert_eq!(get_last_update(&db, db.group(B).unwrap()), Some(at(7)));
    let mut e = db.entry(E).unwrap().clone();
    e.times.last_modification = Some(at(9));
    assert!(db.update_entry(e));
    assert_eq!(get_last_update(&db, db.group(B).unwrap()), Some(at(9)));
}

#[test]
fn times_and_history_are_no_divergence_of_entries() {
    let a = Entry::new(E, A);
    let mut b = Entry::new(E, A);
    b.times.last_modification = Some(at(5));
    b.history = None;
    assert!(!have_entries_diverged(&a, &b));
    b.parent = B;
    assert!(have_entries_diverged(&a, &b));
    b.parent = A;
    b.set_unprotected("Title", "t");
    assert!(have_entries_diverged(&a, &b));
}

#[test]
fn view_state_and_place_are_no_divergence_of_groups() {
    let a = Group::new(A, Some(ROOT));
    let mut b = Group::new(A, None);
    b.times.last_modification = Some(at(5));
    b.is_expanded = true;
    b.last_top_visible_entry = Some(E);
    assert!(!have_groups_diverged(&a, &b));
    b.tags.push("t".to_string());
    assert!(have_groups_diverged(&a, &b));
}

fn version(title: &str, moment: Option<i64>) -> Entry {
    let mut e = Entry::new(E, A);
    e.set_unprotected("Title", title);
    e.times.last_modification = moment.map(at);
    e
}

fn titles(history: &History) -> Vec<String> {
    history.entries.iter().map(|e| e.get("Title").unwrap().to_string()).collect()
}

#[test]
fn merged_histories_are_newest_first_and_complete() {
    let dest = History { entries: vec![version("d3", Some(3)), version("d1", Some(1)), version("same", Some(2))] };
    let source = History { entries: vec![version("same", Some(2)), version("s4", Some(4)), version("s0", None)] };
    let mut log = MergeLog::default();
    let merged = merge_history(&dest, &source, &mut log).unwrap();
    assert_eq!(titles(&merged), vec!["s4", "d3", "same", "d1", "s0"]);
    assert_eq!(log.warnings.len(), 1);

    // Merging the same history again changes nothing.
    let again = merge_history(&merged, &source, &mut log).unwrap();
    assert_eq!(titles(&again), titles(&merged));
}

#[test]
fn versions_of_the_same_moment_keep_their_order() {
    let dest = History { entries: vec![version("a", Some(1)), version("b", Some(1))] };
    let none = History { entries: Vec::new() };
    let mut log = MergeLog::default();
    let merged = merge_history(&dest, &none, &mut log).unwrap();
    assert_eq!(titles(&merged), vec!["a", "b"]);
    assert_eq!(log.warnings.len(), 0);
}

#[test]
fn diverged_versions_of_the_same_moment_are_both_kept_once() {
    let dest = History { entries: vec![version("a", Some(1))] };
    let source = History { entries: vec![version("b", Some(1))] };
    let mut log = MergeLog::default();
    let merged = merge_history(&dest, &source, &mut log).unwrap();
    assert_eq!(titles(&merged), vec!["a", "b"]);
    assert_eq!(log.warnings.len(), 1);

    let again = merge_history(&merged, &source, &mut log).unwrap();
    assert_eq!(titles(&again), vec!["a", "b"]);
    assert_eq!(log.warnings.len(), 1);
}

/// Each version of the destination accounts for at most one of the source.
#[test]
fn versions_are_paired_one_for_one() {
    let x = || version("x", Some(1));
    let one = History { entries: vec![x()] };
    let two = History { entries: vec![x(), x()] };
    let mut log = MergeLog::default();
    assert_eq!(titles(&merge_history(&one, &two, &mut log).unwrap()), vec!["x", "x"]);
    assert_eq!(titles(&merge_history(&two, &one, &mut log).unwrap()), vec!["x", "x"]);
    assert_eq!(titles(&merge_history(&two, &two, &mut log).unwrap()), vec!["x", "x"]);
    assert_eq!(log.warnings.len(), 0);

    let dest = History { entries: vec![version("a", Some(1))] };
    let source = History { entries: vec![version("b", Some(1)), version("c", Some(1))] };
    let merged = merge_history(&dest, &source, &mut log).unwrap();
    assert_eq!(titles(&merged), vec!["a", "b", "c"]);
    assert_eq!(log.warnings.len(), 1);
    assert_eq!(titles(&merge_history(&merged, &source, &mut log).unwrap()), vec!["a", "b", "c"]);
    assert_eq!(log.warnings.len(), 1);
}

/// Warnings come in the order of time, the latest first.
#[test]
fn diverged_versions_are_warned_of_newest_first() {
    let dest = History { entries: vec![version("a", Some(1)), version("b", Some(2))] };
    let source = History { entries: vec![version("c", Some(1)), version("d", Some(2))] };
    let mut log = MergeLog::default();
    let merged = merge_history(&dest, &source, &mut log).unwrap();
    assert_eq!(titles(&merged), vec!["b", "d", "a", "c"]);
    assert_eq!(log.warnings.len(), 2);
    assert!(log.warnings[0].contains("1970-01-01 00:00:02"));
    assert!(log.warnings[1].contains("1970-01-01 00:00:01"));
}

#[test]
fn an_orderly_history_is_given_back() {
    let history = History { entries: vec![version("c", Some(3)), version("b", Some(2)), version("a", Some(1))] };
    let none = History { entries: Vec::new() };
    let mut log = MergeLog::default();
    assert_eq!(titles(&merge_history(&history, &history, &mut log).unwrap()), vec!["c", "b", "a"]);
    assert_eq!(titles(&merge_history(&history, &none, &mut log).unwrap()), vec!["c", "b", "a"]);
    assert_eq!(titles(&merge_history(&none, &history, &mut log).unwrap()), vec!["c", "b", "a"]);
    assert_eq!(log.warnings.len(), 0);
    assert_eq!(log.events.len(), 0);
}

#[test]
fn an_archived_version_comes_first_and_has_no_history() {
    let mut history = History { entries: vec![version("old", Some(1))] };
    let current = version("new", Some(2));
    assert!(current.history.is_some());
    history.add_entry(current);
    assert_eq!(titles(&history), vec!["new", "old"]);
    assert!(history.entries[0].history.is_none());
}

#[test]
fn times_survive_being_written() {
    let times = Times {
        creation: Some(at(1)),
        last_modification: Some(at(2)),
        last_access: None,
        expiry: Some(at(4)),
        location_changed: Some(at(5)),
        expires: Some(true),
        usage_count: Some(42),
    };
    let written = xml::Times::from(times);
    assert_eq!(written.creation_time, Some(Timestamp { mode: TimestampMode::Base64, time: at(1) }));
    assert_eq!(written.last_modification_time.unwrap().mode, TimestampMode::Base64);
    assert_eq!(written.last_access_time, None);
    assert_eq!(written.expiry_time.unwrap().time, at(4));
    assert_eq!(written.location_changed.unwrap().time, at(5));
    assert_eq!(written.usage_count, Some(42));
    assert_eq!(Times::from(written), times);
}

#[test]
fn times_are_read_in_either_form() {
    let read = xml::Times {
        creation_time: Some(Timestamp { mode: TimestampMode::Iso8601, time: at(9) }),
        last_modification_time: None,
        last_access_time: None,
        expiry_time: None,
        expires: None,
        usage_count: None,
        location_changed: None,
    };
    let times = Times::from(read);
    assert_eq!(times, Times { creation: Some(at(9)), ..Times::default() });
}

/// The moment that a date and a time of day stand for.
fn moment(text: &str) -> NaiveDateTime {
    let parsed = chrono::NaiveDateTime::parse_from_str(text, "%Y-%m-%dT%H:%M:%S").unwrap();
    NaiveDateTime::from_timestamp(parsed.and_utc().timestamp(), 0).unwrap()
}

#[test]
fn test_deserialize_times() {
    let stamp = |text: &str| Some(Timestamp { mode: TimestampMode::Iso8601, time: moment(text) });
    let read = xml::Times {
        creation_time: stamp("2023-10-05T12:34:56"),
        last_modification_time: stamp("2023-10-06T12:34:56"),
        last_access_time: stamp("2023-10-07T12:34:56"),
        expiry_time: stamp("2023-12-31T23:59:59"),
        expires: Some(true),
        usage_count: Some(42),
        location_changed: stamp("2023-10-08T12:34:56"),
    };
    let times = Times::from(read);
    assert_eq!(times.usage_count, Some(42));
    assert_eq!(times.expires, Some(true));
    assert_eq!(times.creation, Some(moment("2023-10-05T12:34:56")));
    assert_eq!(times.last_modification, Some(moment("2023-10-06T12:34:56")));
    assert_eq!(times.last_access, Some(moment("2023-10-07T12:34:56")));
    assert_eq!(times.expiry, Some(moment("2023-12-31T23:59:59")));
    assert_eq!(times.location_changed, Some(moment("2023-10-08T12:34:56")));
    assert_eq!(times.creation.unwrap().timestamp(), 1_696_509_296);
}

//! What a merge reports of each object.
use vstd::prelude::*;

use crate::datetime::NaiveDateTime;
use crate::db::database::DatabaseModel;
use crate::db::entry::EntryModel;
use crate::db::group::GroupModel;
use crate::ids::{EntryId, GroupId};
use crate::merge::arrivals::group_creation_notes;
use crate::merge::deletion_laws::{arranged, enlarged, lemma_arranged, lemma_lasting_stays};
use crate::merge::departures::{entry_lasts, group_removal_notes};
use crate::merge::entries::{
    creation_notes, entries_notes, entry_created, entry_removed, entry_shared, placing_notes,
    reconciling_notes, removal_notes, shared_notes, versions,
};
use crate::merge::field_laws::{ticks, ticks_or, time_goes_on};
use crate::merge::group_changes::{
    group_placing_notes, group_reconciling_notes, group_shared, place_present, placed_group,
    reconciled_group, shared_group_notes,
};
use crate::merge::history_laws::lemma_history_uneventful;
use crate::merge::icon_imports::{aligned_source, lemma_adopted_alike, lemma_alike};
use crate::merge::log::{collected, LogModel, MergeEvent, MergeEventTarget, MergeEventType};
use crate::merge::outcome_laws::{
    changed_since, lemma_changed_since, lemma_shared_entry, lemma_target,
};
use crate::merge::{merge_notes, merged, MergeCourse};

verus! {

/// A log reports that something happened to an entry.
pub open spec fn entry_reported(log: LogModel, e: EntryId, event_type: MergeEventType) -> bool {
    log.events.contains(MergeEvent { target: MergeEventTarget::Entry(e), event_type })
}

/// A log reports that something happened to a group.
pub open spec fn group_reported(log: LogModel, g: GroupId, event_type: MergeEventType) -> bool {
    log.events.contains(MergeEvent { target: MergeEventTarget::Group(g), event_type })
}

/// What two logs report together.
pub proof fn lemma_plus(a: LogModel, b: LogModel, event: MergeEvent)
    ensures
        a.plus(b).events.contains(event) <==> a.events.contains(event) || b.events.contains(event),
{
    let both = a.events + b.events;
    if a.events.contains(event) {
        let i = choose|i: int| 0 <= i < a.events.len() && a.events[i] == event;
        assert(both[i] == event);
    }
    if b.events.contains(event) {
        let i = choose|i: int| 0 <= i < b.events.len() && b.events[i] == event;
        assert(both[a.events.len() + i] == event);
    }
    if both.contains(event) {
        let i = choose|i: int| 0 <= i < both.len() && both[i] == event;
        if i >= a.events.len() {
            assert(b.events[i - a.events.len()] == event);
        } else {
            assert(a.events[i] == event);
        }
    }
}

/// What a walk reports is reported of one of its items.
pub proof fn lemma_collected<A>(walk: Seq<A>, notes: spec_fn(A) -> LogModel, event: MergeEvent)
    ensures
        collected(walk, notes).events.contains(event) <==> exists|x: A| #[trigger]
            walk.contains(x) && notes(x).events.contains(event),
    decreases walk.len(),
{
    if walk.len() > 0 {
        let front = walk.drop_last();
        let last = walk.last();
        lemma_collected(front, notes, event);
        lemma_plus(collected(front, notes), notes(last), event);
        assert(walk.contains(last)) by {
            assert(walk[walk.len() - 1] == last);
        }
        assert forall|x: A| front.contains(x) implies walk.contains(x) by {
            let i = choose|i: int| 0 <= i < front.len() && front[i] == x;
            assert(walk[i] == x);
        }
        if exists|x: A| #[trigger] walk.contains(x) && notes(x).events.contains(event) {
            let x = choose|x: A| #[trigger] walk.contains(x) && notes(x).events.contains(event);
            let i = choose|i: int| 0 <= i < walk.len() && walk[i] == x;
            if i < front.len() {
                assert(front[i] == x);
                assert(front.contains(x));
            }
        }
    }
}

/// Where each item of a walk reports only of itself, the walk reports of an item what it reports.
pub proof fn lemma_collected_of<A>(walk: Seq<A>, notes: spec_fn(A) -> LogModel, event: MergeEvent, x: A)
    requires
        forall|y: A| #[trigger] walk.contains(y) && notes(y).events.contains(event) ==> y == x,
    ensures
        collected(walk, notes).events.contains(event) <==> walk.contains(x) && notes(x).events.contains(event),
{
    lemma_collected(walk, notes, event);
}

/// What is reported of one entry that both databases have.
pub proof fn lemma_reconciling(
    dest: EntryModel,
    source: EntryModel,
    target_present: bool,
    now: NaiveDateTime,
    event: MergeEvent,
)
    requires
        0 <= ticks(now),
    ensures
        ({
            let moves = match (dest.times.location_changed, source.times.location_changed) {
                (Some(d), Some(s)) => dest.parent != source.parent && ticks(s) > ticks(d) && target_present,
                _ => false,
            };
            let later = ticks_or(source.times.last_modification, 0) > ticks_or(
                dest.times.last_modification,
                ticks(now),
            );
            reconciling_notes(dest, source, target_present, now).events.contains(event) <==> event.target
                == MergeEventTarget::Entry(dest.id) && (event.event_type is LocationUpdated && moves
                || event.event_type is Updated && later)
        }),
{
    let epoch = NaiveDateTime::spec_epoch();
    let d = match dest.times.last_modification {
        Some(t) => t,
        None => now,
    };
    let s = match source.times.last_modification {
        Some(t) => t,
        None => epoch,
    };
    time_goes_on(d, s);
    time_goes_on(s, d);
    time_goes_on(s, epoch);
    if dest.times.location_changed is Some && source.times.location_changed is Some {
        time_goes_on(source.times.location_changed->0, dest.times.location_changed->0);
    }
    lemma_history_uneventful(versions(dest), versions(source));
    let log = reconciling_notes(dest, source, target_present, now);
    let placing = placing_notes(dest, source, target_present);
    let update = LogModel::event(MergeEventTarget::Entry(dest.id), MergeEventType::Updated);
    let first = MergeEvent {
        target: MergeEventTarget::Entry(dest.id),
        event_type: MergeEventType::LocationUpdated,
    };
    let second = MergeEvent { target: MergeEventTarget::Entry(dest.id), event_type: MergeEventType::Updated };
    let later = ticks(s) > ticks(d);
    assert(log.events =~= placing.events + if later {
        update.events
    } else {
        Seq::empty()
    });
    lemma_plus(placing, update.only_if(later), event);
    assert(update.events.contains(event) <==> event == second) by {
        assert(update.events[0] == second);
    }
    if placing.events.len() > 0 {
        assert(placing.events[0] == first);
    }
    assert(placing.events.contains(event) <==> placing.events.len() > 0 && event == first);
}

/// The parts of what a merge reports.
pub proof fn lemma_parts(
    dest: DatabaseModel,
    source: DatabaseModel,
    now: NaiveDateTime,
    course: MergeCourse,
    event: MergeEvent,
)
    ensures
        ({
            let aligned = aligned_source(course.base, source, course.imports);
            let grown = enlarged(source, course);
            let settled = arranged(source, now, course);
            let entries = course.groups.entries;
            merge_notes(source, now, course).events.contains(event) <==> {
                ||| collected(course.groups.created, |g: GroupId| group_creation_notes(g)).events.contains(event)
                ||| collected(
                    course.groups.deleted,
                    |g: GroupId| group_removal_notes(settled, aligned, g),
                ).events.contains(event)
                ||| collected(entries.source_walk, |e: EntryId| creation_notes(grown, aligned, e)).events.contains(
                    event,
                )
                ||| collected(entries.dest_walk, |e: EntryId| removal_notes(grown, aligned, e)).events.contains(
                    event,
                )
                ||| collected(
                    entries.dest_walk,
                    |e: EntryId| shared_notes(grown, aligned, entries.copies[e], now, e),
                ).events.contains(event)
                ||| collected(
                    course.groups.reconciled,
                    |g: GroupId| shared_group_notes(grown.groups, aligned, now, g),
                ).events.contains(event)
            }
        }),
{
    let aligned = aligned_source(course.base, source, course.imports);
    let grown = enlarged(source, course);
    let settled = arranged(source, now, course);
    let entries = course.groups.entries;
    let a = collected(course.groups.created, |g: GroupId| group_creation_notes(g));
    let b = collected(course.groups.deleted, |g: GroupId| group_removal_notes(settled, aligned, g));
    let c1 = collected(entries.source_walk, |e: EntryId| creation_notes(grown, aligned, e));
    let c2 = collected(entries.dest_walk, |e: EntryId| removal_notes(grown, aligned, e));
    let c3 = collected(
        entries.dest_walk,
        |e: EntryId| shared_notes(grown, aligned, entries.copies[e], now, e),
    );
    let c = entries_notes(grown, aligned, now, entries);
    let d = collected(course.groups.reconciled, |g: GroupId| shared_group_notes(grown.groups, aligned, now, g));
    assert(c == c1.plus(c2).plus(c3));
    assert(merge_notes(source, now, course) == a.plus(b).plus(c).plus(d));
    lemma_plus(c1, c2, event);
    lemma_plus(c1.plus(c2), c3, event);
    lemma_plus(a, b, event);
    lemma_plus(a.plus(b), c, event);
    lemma_plus(a.plus(b).plus(c), d, event);
}

/// What is reported of a group that both databases have, or that was just added.
pub proof fn lemma_group_events(
    dest: GroupModel,
    source: GroupModel,
    target_present: bool,
    now: NaiveDateTime,
    event: MergeEvent,
)
    requires
        target_present ==> source.parent is Some,
    ensures
        ({
            let moves = match (dest.times.location_changed, source.times.location_changed) {
                (Some(d), Some(s)) => dest.parent != source.parent && ticks(s) > ticks(d),
                _ => false,
            };
            let later = ticks_or(source.times.last_modification, 0) > ticks_or(
                dest.times.last_modification,
                ticks(now),
            );
            let reported = group_reconciling_notes(dest, source, target_present, now).events.contains(event);
            &&& reported ==> event.target == MergeEventTarget::Group(dest.id)
            &&& event == (MergeEvent {
                target: MergeEventTarget::Group(dest.id),
                event_type: MergeEventType::LocationUpdated,
            }) ==> (reported <==> moves && target_present)
            &&& event == (MergeEvent {
                target: MergeEventTarget::Group(dest.id),
                event_type: MergeEventType::Updated,
            }) ==> (reported ==> later && (moves ==> target_present))
            &&& event == (MergeEvent {
                target: MergeEventTarget::Group(dest.id),
                event_type: MergeEventType::Updated,
            }) && source.times.last_modification is Some ==> (reported <==> later && (moves ==> target_present))
            &&& event.event_type is Created || event.event_type is Deleted ==> !reported
            &&& dest == source ==> !reported
        }),
{
    let epoch = NaiveDateTime::spec_epoch();
    let d = match dest.times.last_modification {
        Some(t) => t,
        None => now,
    };
    let s = match source.times.last_modification {
        Some(t) => t,
        None => epoch,
    };
    time_goes_on(d, s);
    time_goes_on(s, d);
    time_goes_on(s, epoch);
    if dest.times.location_changed is Some && source.times.location_changed is Some {
        time_goes_on(source.times.location_changed->0, dest.times.location_changed->0);
    }
    let log = group_reconciling_notes(dest, source, target_present, now);
    let placing = group_placing_notes(dest, source, target_present);
    let update = LogModel::event(MergeEventTarget::Group(dest.id), MergeEventType::Updated);
    let first = MergeEvent {
        target: MergeEventTarget::Group(dest.id),
        event_type: MergeEventType::LocationUpdated,
    };
    let second = MergeEvent { target: MergeEventTarget::Group(dest.id), event_type: MergeEventType::Updated };
    let merged = reconciled_group(dest, source, target_present, now);
    let moves = match (dest.times.location_changed, source.times.location_changed) {
        (Some(d), Some(s)) => dest.parent != source.parent && ticks(s) > ticks(d),
        _ => false,
    };
    let updated = (moves ==> target_present) && merged != placed_group(dest, source);
    assert(log.events =~= placing.events + if updated {
        update.events
    } else {
        Seq::empty()
    });
    lemma_plus(placing, update.only_if(updated), event);
    assert(update.events.contains(event) <==> event == second) by {
        assert(update.events[0] == second);
    }
    if placing.events.len() > 0 {
        assert(placing.events[0] == first);
    }
    assert(placing.events.contains(event) <==> placing.events.len() > 0 && event == first);
    if source.times.last_modification is Some && ticks(s) > ticks(d) && (moves ==> target_present) {
        assert(merged.times.last_modification == source.times.last_modification);
        assert(placed_group(dest, source).times.last_modification == dest.times.last_modification);
    }
}

/// An entry is reported as created exactly if it is there after the merge and was not there before.
/// It is reported as deleted exactly if the destination had it, the source does not have it, and the
/// source deleted it when it was not changed any more.
pub proof fn arrival_and_removal_of_entries_are_reported(
    dest: DatabaseModel,
    source: DatabaseModel,
    now: NaiveDateTime,
    course: MergeCourse,
    after: DatabaseModel,
    e: EntryId,
)
    requires
        dest.wf(),
        source.wf(),
        0 <= ticks(now),
        merged(dest, source, now, course, after),
    ensures
        ({
            let log = merge_notes(source, now, course);
            &&& entry_reported(log, e, MergeEventType::Created) <==> !dest.entries.contains_key(e)
                && after.entries.contains_key(e)
            &&& entry_reported(log, e, MergeEventType::Deleted) <==> dest.entries.contains_key(e)
                && !source.entries.contains_key(e) && source.deleted_objects.contains_key(e.uuid)
                && !changed_since(dest.entries[e].times, source.deleted_objects[e.uuid])
        }),
{
    let created = MergeEvent { target: MergeEventTarget::Entry(e), event_type: MergeEventType::Created };
    let deleted = MergeEvent { target: MergeEventTarget::Entry(e), event_type: MergeEventType::Deleted };
    lemma_entry_event(dest, source, now, course, after, e, MergeEventType::Created);
    lemma_entry_event(dest, source, now, course, after, e, MergeEventType::Deleted);
    if dest.entries.contains_key(e) && source.deleted_objects.contains_key(e.uuid) {
        lemma_changed_since(dest.entries[e].times, source.deleted_objects[e.uuid]);
    }
}

/// An entry that both databases have is reported as updated exactly if the source's version is later,
/// and as moved exactly if it is moved to where the source has it. No other entry is.
pub proof fn changes_of_entries_are_reported(
    dest: DatabaseModel,
    source: DatabaseModel,
    now: NaiveDateTime,
    course: MergeCourse,
    after: DatabaseModel,
    e: EntryId,
)
    requires
        dest.wf(),
        source.wf(),
        0 <= ticks(now),
        merged(dest, source, now, course, after),
    ensures
        ({
            let log = merge_notes(source, now, course);
            let own = dest.entries[e];
            let theirs = source.entries[e];
            let shared = dest.entries.contains_key(e) && source.entries.contains_key(e);
            let moves = match (own.times.location_changed, theirs.times.location_changed) {
                (Some(d), Some(s)) => own.parent != theirs.parent && ticks(s) > ticks(d)
                    && after.groups.contains_key(theirs.parent),
                _ => false,
            };
            &&& entry_reported(log, e, MergeEventType::Updated) <==> shared && ticks_or(
                theirs.times.last_modification,
                0,
            ) > ticks_or(own.times.last_modification, ticks(now))
            &&& entry_reported(log, e, MergeEventType::LocationUpdated) <==> shared && moves
        }),
{
    lemma_entry_event(dest, source, now, course, after, e, MergeEventType::Updated);
    lemma_entry_event(dest, source, now, course, after, e, MergeEventType::LocationUpdated);
}

/// What is reported of an entry, in the terms of the library.
proof fn lemma_entry_event(
    dest: DatabaseModel,
    source: DatabaseModel,
    now: NaiveDateTime,
    course: MergeCourse,
    after: DatabaseModel,
    e: EntryId,
    event_type: MergeEventType,
)
    requires
        dest.wf(),
        source.wf(),
        0 <= ticks(now),
        merged(dest, source, now, course, after),
    ensures
        ({
            let own = dest.entries[e];
            let theirs = source.entries[e];
            let shared = dest.entries.contains_key(e) && source.entries.contains_key(e);
            let moves = match (own.times.location_changed, theirs.times.location_changed) {
                (Some(d), Some(s)) => own.parent != theirs.parent && ticks(s) > ticks(d)
                    && after.groups.contains_key(theirs.parent),
                _ => false,
            };
            let later = ticks_or(theirs.times.last_modification, 0) > ticks_or(
                own.times.last_modification,
                ticks(now),
            );
            entry_reported(merge_notes(source, now, course), e, event_type) <==> match event_type {
                MergeEventType::Created => !dest.entries.contains_key(e) && after.entries.contains_key(e),
                MergeEventType::Deleted => entry_removed(dest, source, e),
                MergeEventType::Updated => shared && later,
                MergeEventType::LocationUpdated => shared && moves,
            }
        }),
{
    let event = MergeEvent { target: MergeEventTarget::Entry(e), event_type };
    let aligned = aligned_source(course.base, source, course.imports);
    let grown = enlarged(source, course);
    let settled = arranged(source, now, course);
    let entries = course.groups.entries;
    lemma_parts(dest, source, now, course, event);
    lemma_adopted_alike(dest, source, course.translation, course.base);
    lemma_alike(course.base, source, course.imports, course.start);
    lemma_arranged(dest, source, now, course, after);
    assert(course.base.entries.dom().contains(e) == dest.entries.dom().contains(e));
    // Groups say nothing of entries.
    let a = |g: GroupId| group_creation_notes(g);
    let b = |g: GroupId| group_removal_notes(settled, aligned, g);
    let d = |g: GroupId| shared_group_notes(grown.groups, aligned, now, g);
    lemma_collected(course.groups.created, a, event);
    lemma_collected(course.groups.deleted, b, event);
    lemma_collected(course.groups.reconciled, d, event);
    assert forall|g: GroupId| !(#[trigger] a(g)).events.contains(event) by {}
    assert forall|g: GroupId| !(#[trigger] b(g)).events.contains(event) by {}
    assert forall|g: GroupId| !(#[trigger] d(g)).events.contains(event) by {
        if group_shared(grown.groups, aligned, g) {
            lemma_group_events(
                grown.groups[g],
                aligned.groups[g],
                place_present(grown.groups, aligned.groups[g]),
                now,
                event,
            );
        }
    }
    // Entries speak of themselves.
    let c1 = |x: EntryId| creation_notes(grown, aligned, x);
    let c2 = |x: EntryId| removal_notes(grown, aligned, x);
    let c3 = |x: EntryId| shared_notes(grown, aligned, entries.copies[x], now, x);
    assert forall|x: EntryId| #[trigger] entries.source_walk.contains(x) && c1(x).events.contains(event) implies x == e by {}
    assert forall|x: EntryId| #[trigger] entries.dest_walk.contains(x) && c2(x).events.contains(event) implies x == e by {}
    assert forall|x: EntryId| #[trigger] entries.dest_walk.contains(x) && c3(x).events.contains(event) implies x == e by {
        lemma_own_id(dest, source, now, course, after, x);
        if entry_shared(grown, aligned, x) {
            lemma_reconciling(
                grown.entries[x],
                entries.copies[x],
                grown.groups.contains_key(aligned.entries[x].parent),
                now,
                event,
            );
        }
    }
    lemma_collected_of(entries.source_walk, c1, event, e);
    lemma_collected_of(entries.dest_walk, c2, event, e);
    lemma_collected_of(entries.dest_walk, c3, event, e);
    assert(entries.source_walk.contains(e) == entries.source_walk.to_set().contains(e));
    assert(entries.dest_walk.contains(e) == entries.dest_walk.to_set().contains(e));
    let created = LogModel::event(MergeEventTarget::Entry(e), MergeEventType::Created);
    let deleted = LogModel::event(MergeEventTarget::Entry(e), MergeEventType::Deleted);
    assert(created.events[0].event_type is Created && deleted.events[0].event_type is Deleted);
    assert(created.events.contains(event) <==> event_type is Created) by {
        assert(created.events[0] == MergeEvent {
            target: MergeEventTarget::Entry(e),
            event_type: MergeEventType::Created,
        });
    }
    assert(deleted.events.contains(event) <==> event_type is Deleted) by {
        assert(deleted.events[0] == MergeEvent {
            target: MergeEventTarget::Entry(e),
            event_type: MergeEventType::Deleted,
        });
    }
    assert(entry_removed(grown, aligned, e) == entry_removed(dest, source, e));
    if dest.entries.contains_key(e) && source.entries.contains_key(e) {
        lemma_own_id(dest, source, now, course, after, e);
        lemma_shared_entry(dest, source, now, course, after, e);
        lemma_target(dest, source, now, course, after, e);
        lemma_reconciling(
            grown.entries[e],
            entries.copies[e],
            grown.groups.contains_key(aligned.entries[e].parent),
            now,
            event,
        );
    }
    lemma_created_entry(dest, source, now, course, after, e);
}

/// An entry is added exactly if it is there afterwards and was not there before.
proof fn lemma_created_entry(
    dest: DatabaseModel,
    source: DatabaseModel,
    now: NaiveDateTime,
    course: MergeCourse,
    after: DatabaseModel,
    e: EntryId,
)
    requires
        merged(dest, source, now, course, after),
    ensures
        ({
            let aligned = aligned_source(course.base, source, course.imports);
            entry_created(enlarged(source, course), aligned, e) <==> !dest.entries.contains_key(e)
                && after.entries.contains_key(e)
        }),
{
    let aligned = aligned_source(course.base, source, course.imports);
    let grown = enlarged(source, course);
    let settled = arranged(source, now, course);
    lemma_adopted_alike(dest, source, course.translation, course.base);
    lemma_alike(course.base, source, course.imports, course.start);
    lemma_arranged(dest, source, now, course, after);
    assert(course.base.entries.dom().contains(e) == dest.entries.dom().contains(e));
    if entry_created(grown, aligned, e) {
        assert(settled.entries.contains_key(e));
        assert(entry_lasts(settled, aligned, e));
        lemma_lasting_stays(dest, source, now, course, after, dest.root, e);
    } else if !dest.entries.contains_key(e) {
        assert(!settled.entries.contains_key(e));
    }
}

/// An entry has its own identifier.
pub proof fn lemma_own_id(
    dest: DatabaseModel,
    source: DatabaseModel,
    now: NaiveDateTime,
    course: MergeCourse,
    after: DatabaseModel,
    x: EntryId,
)
    requires
        dest.wf(),
        merged(dest, source, now, course, after),
    ensures
        enlarged(source, course).entries.contains_key(x) ==> enlarged(source, course).entries[x].id == x,
{
    lemma_adopted_alike(dest, source, course.translation, course.base);
    assert(course.base.entries.dom().contains(x) == dest.entries.dom().contains(x));
    if dest.entries.contains_key(x) {
        assert(dest.entries[x].id == x);
    }
}

} // verus!

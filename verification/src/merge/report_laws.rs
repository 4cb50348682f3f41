//! What a merge does not report.
use vstd::prelude::*;

use crate::datetime::NaiveDateTime;
use crate::db::database::DatabaseModel;
use crate::db::entry::EntryModel;
use crate::db::group::GroupModel;
use crate::ids::{EntryId, GroupId};
use crate::merge::arrivals::group_creation_notes;
use crate::merge::attachments::imported;
use crate::merge::deletion_laws::{arranged, enlarged};
use crate::merge::departures::group_removal_notes;
use crate::merge::entries::{
    creation_notes, dest_modified, entries_notes, entry_level, entry_shared, placing_notes,
    reconciling_notes, removal_notes, shared_notes, source_modified, versions,
};
use crate::merge::event_laws::{
    lemma_collected, lemma_group_events, lemma_own_id, lemma_plus, lemma_reconciling,
};
use crate::merge::field_laws::ticks;
use crate::merge::group_changes::{
    group_placing_notes, group_reconciling_notes, group_relocates, group_shared, place_present,
    placed_group, reconciled_group, shared_group_notes,
};
use crate::merge::group_event_laws::lemma_group_id;
use crate::merge::history_laws::{lemma_history_uneventful, orderly_history_is_given_back};
use crate::merge::icon_imports::{aligned_source, lemma_adopted_alike, lemma_alike};
use crate::merge::icons::{retargeted_entry, retargeted_group};
use crate::merge::log::{collected, LogModel, MergeEvent, MergeEventTarget, MergeEventType};
use crate::merge::outcome_laws::{lemma_shared_entry, lemma_target};
use crate::merge::{merge_notes, merged, MergeCourse};

verus! {

/// A walk on which there is nothing to warn of.
proof fn lemma_no_warnings<A>(walk: Seq<A>, notes: spec_fn(A) -> LogModel)
    requires
        forall|x: A| #[trigger] walk.contains(x) ==> notes(x).warnings.len() == 0,
    ensures
        collected(walk, notes).warnings.len() == 0,
    decreases walk.len(),
{
    if walk.len() > 0 {
        let front = walk.drop_last();
        assert forall|x: A| #[trigger] front.contains(x) implies notes(x).warnings.len() == 0 by {
            let i = choose|i: int| 0 <= i < front.len() && front[i] == x;
            assert(walk[i] == x);
            assert(walk.contains(x));
        }
        lemma_no_warnings(front, notes);
        assert(walk[walk.len() - 1] == walk.last());
        assert(walk.contains(walk.last()));
    }
}

/// Two versions of an entry give no reason for a warning: both are dated and have an empty history, and
/// they stand in the same group.
pub open spec fn entry_is_clear(dest: EntryModel, source: EntryModel) -> bool {
    &&& dest.times.last_modification is Some
    &&& source.times.last_modification is Some
    &&& dest.parent == source.parent
    &&& dest.history is Some && dest.history->0.len() == 0
    &&& source.history is Some && source.history->0.len() == 0
}

/// Two versions of a group give no reason for a warning: both are dated, and they stand in the same place.
pub open spec fn group_is_clear(dest: GroupModel, source: GroupModel) -> bool {
    &&& dest.times.last_modification is Some
    &&& source.times.last_modification is Some
    &&& dest.parent == source.parent
}

/// Nothing is warned of when such versions of an entry are merged.
proof fn lemma_clear_entry(dest: EntryModel, source: EntryModel, target_present: bool, now: NaiveDateTime)
    requires
        entry_is_clear(dest, source),
    ensures
        reconciling_notes(dest, source, target_present, now).warnings.len() == 0,
{
    let none = Seq::<EntryModel>::empty();
    assert(versions(dest) =~= none);
    assert(versions(source) =~= none);
    orderly_history_is_given_back(none);
}

/// A merge warns of nothing, where all objects that both databases have are dated and stand where they
/// stood, where no entry that both have has archived versions, where all groups that the source has are
/// dated, and where no entry is left out for want of its group.
pub proof fn clear_merge_warns_of_nothing(
    dest: DatabaseModel,
    source: DatabaseModel,
    now: NaiveDateTime,
    course: MergeCourse,
    after: DatabaseModel,
)
    requires
        source.wf(),
        merged(dest, source, now, course, after),
        forall|e: EntryId| #[trigger]
            dest.entries.contains_key(e) && source.entries.contains_key(e) ==> entry_is_clear(
                dest.entries[e],
                source.entries[e],
            ),
        forall|g: GroupId| #[trigger]
            dest.groups.contains_key(g) && source.groups.contains_key(g) ==> group_is_clear(
                dest.groups[g],
                source.groups[g],
            ),
        forall|g: GroupId| #[trigger]
            source.groups.contains_key(g) ==> source.groups[g].times.last_modification is Some,
        forall|e: EntryId| #[trigger]
            source.entries.contains_key(e) ==> after.groups.contains_key(source.entries[e].parent),
    ensures
        merge_notes(source, now, course).warnings.len() == 0,
{
    let aligned = aligned_source(course.base, source, course.imports);
    let grown = enlarged(source, course);
    let settled = arranged(source, now, course);
    let entries = course.groups.entries;
    lemma_adopted_alike(dest, source, course.translation, course.base);
    lemma_alike(course.base, source, course.imports, course.start);
    let a = |g: GroupId| group_creation_notes(g);
    let b = |g: GroupId| group_removal_notes(settled, aligned, g);
    let c1 = |e: EntryId| creation_notes(grown, aligned, e);
    let c2 = |e: EntryId| removal_notes(grown, aligned, e);
    let c3 = |e: EntryId| shared_notes(grown, aligned, entries.copies[e], now, e);
    let d = |g: GroupId| shared_group_notes(grown.groups, aligned, now, g);
    lemma_no_warnings(course.groups.created, a);
    lemma_no_warnings(course.groups.deleted, b);
    assert forall|e: EntryId| #[trigger] entries.source_walk.contains(e) implies c1(e).warnings.len() == 0 by {
        assert(entries.source_walk.to_set().contains(e));
        assert(source.entries.contains_key(e));
        lemma_target(dest, source, now, course, after, e);
    }
    lemma_no_warnings(entries.source_walk, c1);
    lemma_no_warnings(entries.dest_walk, c2);
    assert forall|e: EntryId| #[trigger] entries.dest_walk.contains(e) implies c3(e).warnings.len() == 0 by {
        if entry_shared(grown, aligned, e) {
            lemma_clear_copy(dest, source, now, course, after, e);
        }
    }
    lemma_no_warnings(entries.dest_walk, c3);
    assert forall|g: GroupId| #[trigger] course.groups.reconciled.contains(g) implies d(g).warnings.len() == 0 by {
        if group_shared(grown.groups, aligned, g) {
            assert(source.groups.contains_key(g));
            assert(course.base.groups.dom().contains(g) == dest.groups.dom().contains(g));
            if dest.groups.contains_key(g) {
                assert(grown.groups[g] == retargeted_group(dest.groups[g], course.translation));
            } else {
                assert(grown.groups[g] == aligned.groups[g]);
            }
        }
    }
    lemma_no_warnings(course.groups.reconciled, d);
    assert(merge_notes(source, now, course) == collected(course.groups.created, a).plus(
        collected(course.groups.deleted, b),
    ).plus(collected(entries.source_walk, c1).plus(collected(entries.dest_walk, c2)).plus(
        collected(entries.dest_walk, c3),
    )).plus(collected(course.groups.reconciled, d)));
}

/// Nothing is warned of when such an entry is merged with its copy.
proof fn lemma_clear_copy(
    dest: DatabaseModel,
    source: DatabaseModel,
    now: NaiveDateTime,
    course: MergeCourse,
    after: DatabaseModel,
    e: EntryId,
)
    requires
        merged(dest, source, now, course, after),
        entry_shared(
            enlarged(source, course),
            aligned_source(course.base, source, course.imports),
            e,
        ),
        dest.entries.contains_key(e) && source.entries.contains_key(e) ==> entry_is_clear(
            dest.entries[e],
            source.entries[e],
        ),
    ensures
        shared_notes(
            enlarged(source, course),
            aligned_source(course.base, source, course.imports),
            course.groups.entries.copies[e],
            now,
            e,
        ).warnings.len() == 0,
{
    let aligned = aligned_source(course.base, source, course.imports);
    let grown = enlarged(source, course);
    let copy = course.groups.entries.copies[e];
    lemma_adopted_alike(dest, source, course.translation, course.base);
    lemma_alike(course.base, source, course.imports, course.start);
    assert(course.base.entries.dom().contains(e) == dest.entries.dom().contains(e));
    assert(source.entries.contains_key(e));
    lemma_shared_entry(dest, source, now, course, after, e);
    assert(grown.entries[e] == retargeted_entry(dest.entries[e], course.translation));
    assert(aligned.entries.contains_key(e));
    assert(imported(
        aligned.entries[e],
        copy,
        aligned.attachments,
        course.groups.middle.attachments,
    ));
    lemma_clear_entry(grown.entries[e], copy, grown.groups.contains_key(aligned.entries[e].parent), now);
}

/// No event occurs twice.
pub open spec fn once(log: LogModel) -> bool {
    log.events.no_duplicates()
}

/// Two logs that have no event in common, and in neither of which an event occurs twice.
proof fn lemma_once_plus(a: LogModel, b: LogModel)
    requires
        once(a),
        once(b),
        forall|event: MergeEvent| #[trigger] a.events.contains(event) ==> !b.events.contains(event),
    ensures
        once(a.plus(b)),
{
    let both = a.events + b.events;
    assert forall|i: int, j: int| 0 <= i < both.len() && 0 <= j < both.len() && i != j implies both[i] != both[j] by {
        let n = a.events.len();
        if i < n && j < n {
            assert(both[i] == a.events[i] && both[j] == a.events[j]);
        } else if i >= n && j >= n {
            assert(both[i] == b.events[i - n] && both[j] == b.events[j - n]);
        } else if i < n {
            assert(a.events.contains(a.events[i]));
            assert(b.events.contains(b.events[j - n]));
        } else {
            assert(a.events.contains(a.events[j]));
            assert(b.events.contains(b.events[i - n]));
        }
    }
}

/// A walk that meets each item once, and on which each item reports only of itself.
proof fn lemma_once_collected<A>(walk: Seq<A>, notes: spec_fn(A) -> LogModel)
    requires
        walk.no_duplicates(),
        forall|x: A| #[trigger] walk.contains(x) ==> once(notes(x)),
        forall|x: A, y: A, event: MergeEvent|
            #![trigger notes(x).events.contains(event), notes(y)]
            walk.contains(x) && walk.contains(y) && notes(x).events.contains(event) && notes(y).events.contains(event)
                ==> x == y,
    ensures
        once(collected(walk, notes)),
    decreases walk.len(),
{
    if walk.len() > 0 {
        let front = walk.drop_last();
        let last = walk.last();
        assert(walk[walk.len() - 1] == last);
        assert(walk.contains(last));
        assert forall|x: A| #[trigger] front.contains(x) implies walk.contains(x) && x != last by {
            let i = choose|i: int| 0 <= i < front.len() && front[i] == x;
            assert(walk[i] == x);
        }
        lemma_once_collected(front, notes);
        assert forall|event: MergeEvent| #[trigger] collected(front, notes).events.contains(event) implies !notes(
            last,
        ).events.contains(event) by {
            lemma_collected(front, notes, event);
            let x = choose|x: A| #[trigger] front.contains(x) && notes(x).events.contains(event);
            assert(walk.contains(x) && x != last);
            if notes(last).events.contains(event) {
                assert(notes(x).events.contains(event));
            }
        }
        lemma_once_plus(collected(front, notes), notes(last));
    }
}

/// No event occurs twice when two versions of an entry are merged.
proof fn lemma_once_entry(dest: EntryModel, source: EntryModel, target_present: bool, now: NaiveDateTime)
    ensures
        once(reconciling_notes(dest, source, target_present, now)),
{
    lemma_history_uneventful(versions(dest), versions(source));
    let log = reconciling_notes(dest, source, target_present, now);
    let placing = placing_notes(dest, source, target_present);
    let update = LogModel::event(MergeEventTarget::Entry(dest.id), MergeEventType::Updated);
    let updated = !entry_level(dest, source, now) && source_modified(source).is_after(dest_modified(dest, now));
    assert(log.events =~= placing.events + update.only_if(updated).events);
    assert(placing.events.len() <= 1);
    assert(placing.events.len() == 1 ==> placing.events[0].event_type is LocationUpdated);
    assert forall|event: MergeEvent| #[trigger] placing.events.contains(event) implies !update.only_if(
        updated,
    ).events.contains(event) by {
        assert(event.event_type is LocationUpdated);
    }
    lemma_once_plus(placing, update.only_if(updated));
}

/// No event occurs twice when two versions of a group are merged.
proof fn lemma_once_group(dest: GroupModel, source: GroupModel, target_present: bool, now: NaiveDateTime)
    ensures
        once(group_reconciling_notes(dest, source, target_present, now)),
{
    let log = group_reconciling_notes(dest, source, target_present, now);
    let placing = group_placing_notes(dest, source, target_present);
    let update = LogModel::event(MergeEventTarget::Group(dest.id), MergeEventType::Updated);
    let updated = (group_relocates(dest, source) ==> target_present) && reconciled_group(
        dest,
        source,
        target_present,
        now,
    ) != placed_group(dest, source);
    assert(log.events =~= placing.events + update.only_if(updated).events);
    assert(placing.events.len() <= 1);
    assert(placing.events.len() == 1 ==> placing.events[0].event_type is LocationUpdated);
    assert forall|event: MergeEvent| #[trigger] placing.events.contains(event) implies !update.only_if(
        updated,
    ).events.contains(event) by {
        assert(event.event_type is LocationUpdated);
    }
    lemma_once_plus(placing, update.only_if(updated));
}

/// An event of a walk that reports of entries.
proof fn lemma_entry_part(
    dest: DatabaseModel,
    source: DatabaseModel,
    now: NaiveDateTime,
    course: MergeCourse,
    after: DatabaseModel,
)
    requires
        dest.wf(),
        source.wf(),
        0 <= ticks(now),
        merged(dest, source, now, course, after),
    ensures
        ({
            let aligned = aligned_source(course.base, source, course.imports);
            let grown = enlarged(source, course);
            let entries = course.groups.entries;
            let c1 = collected(entries.source_walk, |e: EntryId| creation_notes(grown, aligned, e));
            let c2 = collected(entries.dest_walk, |e: EntryId| removal_notes(grown, aligned, e));
            let c3 = collected(
                entries.dest_walk,
                |e: EntryId| shared_notes(grown, aligned, entries.copies[e], now, e),
            );
            &&& once(c1.plus(c2).plus(c3))
            &&& forall|event: MergeEvent| #[trigger]
                c1.plus(c2).plus(c3).events.contains(event) ==> event.target is Entry
        }),
{
    let aligned = aligned_source(course.base, source, course.imports);
    let grown = enlarged(source, course);
    let entries = course.groups.entries;
    let n1 = |e: EntryId| creation_notes(grown, aligned, e);
    let n2 = |e: EntryId| removal_notes(grown, aligned, e);
    let n3 = |e: EntryId| shared_notes(grown, aligned, entries.copies[e], now, e);
    let c1 = collected(entries.source_walk, n1);
    let c2 = collected(entries.dest_walk, n2);
    let c3 = collected(entries.dest_walk, n3);
    assert forall|e: EntryId, event: MergeEvent| #[trigger] n3(e).events.contains(event) implies event.target
        == MergeEventTarget::Entry(grown.entries[e].id) && (event.event_type is Updated
        || event.event_type is LocationUpdated) && entry_shared(grown, aligned, e) by {
        if entry_shared(grown, aligned, e) {
            lemma_reconciling(
                grown.entries[e],
                entries.copies[e],
                grown.groups.contains_key(aligned.entries[e].parent),
                now,
                event,
            );
        }
    }
    assert forall|e: EntryId| #[trigger] entries.dest_walk.contains(e) implies once(n3(e)) by {
        if entry_shared(grown, aligned, e) {
            lemma_once_entry(
                grown.entries[e],
                entries.copies[e],
                grown.groups.contains_key(aligned.entries[e].parent),
                now,
            );
        }
    }
    assert forall|x: EntryId, y: EntryId, event: MergeEvent|
        #![trigger n3(x).events.contains(event), n3(y)]
        entries.dest_walk.contains(x) && entries.dest_walk.contains(y) && n3(x).events.contains(event)
            && n3(y).events.contains(event) implies x == y by {
        lemma_own_id(dest, source, now, course, after, x);
        lemma_own_id(dest, source, now, course, after, y);
    }
    lemma_once_collected(entries.source_walk, n1);
    lemma_once_collected(entries.dest_walk, n2);
    lemma_once_collected(entries.dest_walk, n3);
    assert forall|event: MergeEvent| #[trigger] c1.events.contains(event) implies event.event_type is Created
        && event.target is Entry by {
        lemma_collected(entries.source_walk, n1, event);
    }
    assert forall|event: MergeEvent| #[trigger] c2.events.contains(event) implies event.event_type is Deleted
        && event.target is Entry by {
        lemma_collected(entries.dest_walk, n2, event);
    }
    assert forall|event: MergeEvent| #[trigger] c3.events.contains(event) implies (event.event_type is Updated
        || event.event_type is LocationUpdated) && event.target is Entry by {
        lemma_collected(entries.dest_walk, n3, event);
        let x = choose|x: EntryId| #[trigger] entries.dest_walk.contains(x) && n3(x).events.contains(event);
        assert(n3(x).events.contains(event));
    }
    lemma_once_plus(c1, c2);
    assert forall|event: MergeEvent| #[trigger] c1.plus(c2).events.contains(event) implies !c3.events.contains(event)
        && event.target is Entry by {
        lemma_plus(c1, c2, event);
    }
    lemma_once_plus(c1.plus(c2), c3);
    assert forall|event: MergeEvent| #[trigger]
        c1.plus(c2).plus(c3).events.contains(event) implies event.target is Entry by {
        lemma_plus(c1.plus(c2), c3, event);
    }
}

/// A merge reports nothing twice.
pub proof fn nothing_is_reported_twice(
    dest: DatabaseModel,
    source: DatabaseModel,
    now: NaiveDateTime,
    course: MergeCourse,
    after: DatabaseModel,
)
    requires
        dest.wf(),
        source.wf(),
        0 <= ticks(now),
        merged(dest, source, now, course, after),
    ensures
        merge_notes(source, now, course).events.no_duplicates(),
{
    let aligned = aligned_source(course.base, source, course.imports);
    let grown = enlarged(source, course);
    let settled = arranged(source, now, course);
    let entries = course.groups.entries;
    let na = |g: GroupId| group_creation_notes(g);
    let nb = |g: GroupId| group_removal_notes(settled, aligned, g);
    let nd = |g: GroupId| shared_group_notes(grown.groups, aligned, now, g);
    let a = collected(course.groups.created, na);
    let b = collected(course.groups.deleted, nb);
    let c = entries_notes(grown, aligned, now, entries);
    let d = collected(course.groups.reconciled, nd);
    lemma_entry_part(dest, source, now, course, after);
    assert(c == collected(entries.source_walk, |e: EntryId| creation_notes(grown, aligned, e)).plus(
        collected(entries.dest_walk, |e: EntryId| removal_notes(grown, aligned, e)),
    ).plus(
        collected(entries.dest_walk, |e: EntryId| shared_notes(grown, aligned, entries.copies[e], now, e)),
    ));
    assert forall|g: GroupId, event: MergeEvent| #[trigger] nd(g).events.contains(event) implies event.target
        == MergeEventTarget::Group(grown.groups[g].id) && (event.event_type is Updated
        || event.event_type is LocationUpdated) && group_shared(grown.groups, aligned, g) by {
        if group_shared(grown.groups, aligned, g) {
            lemma_group_events(
                grown.groups[g],
                aligned.groups[g],
                place_present(grown.groups, aligned.groups[g]),
                now,
                event,
            );
        }
    }
    assert forall|g: GroupId| #[trigger] course.groups.reconciled.contains(g) implies once(nd(g)) by {
        if group_shared(grown.groups, aligned, g) {
            lemma_once_group(
                grown.groups[g],
                aligned.groups[g],
                place_present(grown.groups, aligned.groups[g]),
                now,
            );
        }
    }
    assert forall|x: GroupId, y: GroupId, event: MergeEvent|
        #![trigger nd(x).events.contains(event), nd(y)]
        course.groups.reconciled.contains(x) && course.groups.reconciled.contains(y) && nd(x).events.contains(event)
            && nd(y).events.contains(event) implies x == y by {
        lemma_group_id(dest, source, now, course, after, x);
        lemma_group_id(dest, source, now, course, after, y);
    }
    lemma_once_collected(course.groups.created, na);
    lemma_once_collected(course.groups.deleted, nb);
    lemma_once_collected(course.groups.reconciled, nd);
    assert forall|event: MergeEvent| #[trigger] a.events.contains(event) implies event.event_type is Created
        && event.target is Group by {
        lemma_collected(course.groups.created, na, event);
    }
    assert forall|event: MergeEvent| #[trigger] b.events.contains(event) implies event.event_type is Deleted
        && event.target is Group by {
        lemma_collected(course.groups.deleted, nb, event);
    }
    assert forall|event: MergeEvent| #[trigger] d.events.contains(event) implies (event.event_type is Updated
        || event.event_type is LocationUpdated) && event.target is Group by {
        lemma_collected(course.groups.reconciled, nd, event);
        let x = choose|x: GroupId| #[trigger]
            course.groups.reconciled.contains(x) && nd(x).events.contains(event);
        assert(nd(x).events.contains(event));
    }
    lemma_once_plus(a, b);
    assert forall|event: MergeEvent| #[trigger] a.plus(b).events.contains(event) implies !c.events.contains(event)
        && event.target is Group && (event.event_type is Created || event.event_type is Deleted) by {
        lemma_plus(a, b, event);
    }
    lemma_once_plus(a.plus(b), c);
    assert forall|event: MergeEvent| #[trigger]
        a.plus(b).plus(c).events.contains(event) implies !d.events.contains(event) by {
        lemma_plus(a.plus(b), c, event);
    }
    lemma_once_plus(a.plus(b).plus(c), d);
    assert(merge_notes(source, now, course) == a.plus(b).plus(c).plus(d));
}

} // verus!

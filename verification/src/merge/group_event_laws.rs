//! What a merge reports of each group.
use vstd::prelude::*;

use crate::datetime::NaiveDateTime;
use crate::db::database::{parents, DatabaseModel};
use crate::db::tree::{
    ancestor, lemma_ancestor_first, lemma_within_self, lemma_within_trans, rooted, within,
    within_any,
};
use crate::ids::{EntryId, GroupId};
use crate::merge::arrivals::{group_created, group_creation_notes};
use crate::merge::deletion_laws::{
    arranged, enlarged, lemma_arranged, lemma_created_in_source, removed_with_group,
};
use crate::merge::departures::{
    entry_lasts, gone_groups, group_gone, group_lasts, group_removal_notes, lemma_kept_by_source,
    nothing_lasts,
};
use crate::merge::entries::{creation_notes, entry_shared, removal_notes, shared_notes};
use crate::merge::event_laws::{
    group_reported, lemma_collected, lemma_collected_of, lemma_group_events, lemma_parts,
    lemma_reconciling,
};
use crate::merge::field_laws::{ticks, ticks_or};
use crate::merge::group_changes::{
    group_reconciling_notes, group_shared, place_present, shared_group_notes,
};
use crate::merge::group_laws::lemma_kept_group;
use crate::merge::icon_imports::{aligned_source, lemma_adopted_alike, lemma_alike};
use crate::merge::icons::retargeted_group;
use crate::merge::log::{LogModel, MergeEvent, MergeEventTarget, MergeEventType};
use crate::merge::{merge_notes, merged, MergeCourse};

verus! {

/// A group is reported as created exactly if it is there after the merge and was not there before.
pub proof fn arrival_of_groups_is_reported(
    dest: DatabaseModel,
    source: DatabaseModel,
    now: NaiveDateTime,
    course: MergeCourse,
    after: DatabaseModel,
    g: GroupId,
)
    requires
        dest.wf(),
        source.wf(),
        0 <= ticks(now),
        merged(dest, source, now, course, after),
    ensures
        group_reported(merge_notes(source, now, course), g, MergeEventType::Created) <==> !dest.groups.contains_key(g)
            && after.groups.contains_key(g),
{
    let aligned = aligned_source(course.base, source, course.imports);
    let settled = arranged(source, now, course);
    lemma_group_event(dest, source, now, course, after, g, MergeEventType::Created);
    lemma_adopted_alike(dest, source, course.translation, course.base);
    lemma_alike(course.base, source, course.imports, course.start);
    lemma_arranged(dest, source, now, course, after);
    if group_created(course.start, aligned, g) {
        assert(group_created(course.base, source, g));
        assert(group_created(dest, source, g));
        assert(settled.groups.contains_key(g));
        lemma_created_in_source(dest, source, g);
        lemma_kept_group(dest, source, now, course, after, g);
    } else if !dest.groups.contains_key(g) {
        assert(!group_created(course.base, source, g));
        assert(!group_created(dest, source, g));
        assert(!settled.groups.contains_key(g));
    }
}

/// A group is reported as deleted exactly if the destination had it and has it no more, and the
/// source has its deletion on record.
pub proof fn removal_of_groups_is_reported(
    dest: DatabaseModel,
    source: DatabaseModel,
    now: NaiveDateTime,
    course: MergeCourse,
    after: DatabaseModel,
    g: GroupId,
)
    requires
        dest.wf(),
        source.wf(),
        0 <= ticks(now),
        merged(dest, source, now, course, after),
    ensures
        group_reported(merge_notes(source, now, course), g, MergeEventType::Deleted) <==> dest.groups.contains_key(g)
            && !after.groups.contains_key(g) && source.deleted_objects.contains_key(g.uuid),
{
    let aligned = aligned_source(course.base, source, course.imports);
    let settled = arranged(source, now, course);
    let t = settled.tree();
    let tops = gone_groups(settled, aligned);
    lemma_group_event(dest, source, now, course, after, g, MergeEventType::Deleted);
    lemma_arranged(dest, source, now, course, after);
    if group_gone(settled, aligned, g) {
        lemma_within_self(t, g);
        assert(tops.contains(g));
        assert(within_any(t, g, tops));
        if !dest.groups.contains_key(g) {
            assert(group_created(dest, source, g));
            lemma_created_in_source(dest, source, g);
            assert(aligned.groups.contains_key(g));
            lemma_kept_by_source(settled, aligned, g);
        }
    }
    if dest.groups.contains_key(g) && !after.groups.contains_key(g) && source.deleted_objects.contains_key(g.uuid) {
        assert(settled.groups.contains_key(g));
        assert(removed_with_group(source, now, course, g));
        let top = choose|top: GroupId| tops.contains(top) && #[trigger] within(t, g, top);
        assert(group_gone(settled, aligned, top));
        assert(nothing_lasts(settled, aligned, g)) by {
            reveal(nothing_lasts);
            assert forall|x: GroupId| #[trigger] settled.groups.contains_key(x) && within(t, x, g) implies !group_lasts(
                settled,
                aligned,
                x,
            ) by {
                lemma_within_trans(t, x, g, top);
            }
            assert forall|e: EntryId| #[trigger] settled.entries.contains_key(e) && within(
                t,
                settled.entries[e].parent,
                g,
            ) implies !entry_lasts(settled, aligned, e) by {
                lemma_within_trans(t, settled.entries[e].parent, g, top);
            }
        }
        if g == settled.root {
            assert(rooted(parents(settled.groups), settled.root));
            assert(t =~= parents(settled.groups));
            let n = choose|n: nat| ancestor(t, g, n) == Some(top);
            if n > 0 {
                lemma_ancestor_first(t, g, n);
            }
        }
        assert(group_gone(settled, aligned, g));
    }
}

/// A group that both databases have is reported as moved exactly if it is moved to where the source
/// has it. It is reported as updated only if the source's version is later, and always if that is
/// dated, unless the group would have to move to a place that is not there. No other group is.
pub proof fn changes_of_groups_are_reported(
    dest: DatabaseModel,
    source: DatabaseModel,
    now: NaiveDateTime,
    course: MergeCourse,
    after: DatabaseModel,
    g: GroupId,
)
    requires
        dest.wf(),
        source.wf(),
        0 <= ticks(now),
        merged(dest, source, now, course, after),
    ensures
        ({
            let log = merge_notes(source, now, course);
            let own = dest.groups[g];
            let theirs = source.groups[g];
            let shared = dest.groups.contains_key(g) && source.groups.contains_key(g);
            let target = theirs.parent is Some && after.groups.contains_key(theirs.parent->0);
            let moves = match (own.times.location_changed, theirs.times.location_changed) {
                (Some(d), Some(s)) => own.parent != theirs.parent && ticks(s) > ticks(d),
                _ => false,
            };
            let later = ticks_or(theirs.times.last_modification, 0) > ticks_or(
                own.times.last_modification,
                ticks(now),
            );
            &&& group_reported(log, g, MergeEventType::LocationUpdated) <==> shared && moves && target
            &&& group_reported(log, g, MergeEventType::Updated) ==> shared && later && (moves ==> target)
            &&& shared && later && (moves ==> target) && theirs.times.last_modification is Some ==> group_reported(
                log,
                g,
                MergeEventType::Updated,
            )
        }),
{
    lemma_group_event(dest, source, now, course, after, g, MergeEventType::LocationUpdated);
    lemma_group_event(dest, source, now, course, after, g, MergeEventType::Updated);
    let aligned = aligned_source(course.base, source, course.imports);
    let grown = enlarged(source, course);
    lemma_adopted_alike(dest, source, course.translation, course.base);
    lemma_alike(course.base, source, course.imports, course.start);
    assert(course.base.groups.dom().contains(g) == dest.groups.dom().contains(g));
    let moved = MergeEvent { target: MergeEventTarget::Group(g), event_type: MergeEventType::LocationUpdated };
    let updated = MergeEvent { target: MergeEventTarget::Group(g), event_type: MergeEventType::Updated };
    if group_shared(grown.groups, aligned, g) {
        let d = grown.groups[g];
        let s = aligned.groups[g];
        let target = place_present(grown.groups, s);
        assert(source.groups.contains_key(g));
        lemma_place(dest, source, now, course, after, g);
        lemma_group_events(d, s, target, now, moved);
        lemma_group_events(d, s, target, now, updated);
        if dest.groups.contains_key(g) {
            assert(d == retargeted_group(dest.groups[g], course.translation));
            assert(dest.groups[g].id == g);
        } else {
            assert(d == s);
        }
    } else {
        assert(aligned.groups.contains_key(g) == source.groups.contains_key(g));
        assert(!(dest.groups.contains_key(g) && source.groups.contains_key(g)));
    }
}

/// The place that the source has for a group is there when groups are merged exactly if it is there
/// afterwards.
pub proof fn lemma_place(
    dest: DatabaseModel,
    source: DatabaseModel,
    now: NaiveDateTime,
    course: MergeCourse,
    after: DatabaseModel,
    g: GroupId,
)
    requires
        source.wf(),
        merged(dest, source, now, course, after),
        source.groups.contains_key(g),
    ensures
        ({
            let aligned = aligned_source(course.base, source, course.imports);
            place_present(enlarged(source, course).groups, aligned.groups[g]) <==> source.groups[g].parent is Some
                && after.groups.contains_key(source.groups[g].parent->0)
        }),
{
    let aligned = aligned_source(course.base, source, course.imports);
    let settled = arranged(source, now, course);
    lemma_adopted_alike(dest, source, course.translation, course.base);
    lemma_alike(course.base, source, course.imports, course.start);
    lemma_arranged(dest, source, now, course, after);
    let parent = source.groups[g].parent;
    assert(aligned.groups.contains_key(g) && aligned.groups[g].parent == parent);
    if parent is Some {
        let p = parent->0;
        assert(source.tree().contains_key(g) && source.tree()[g] == parent);
        assert(source.groups.contains_key(p));
        lemma_kept_group(dest, source, now, course, after, p);
        assert(settled.groups.contains_key(p) == enlarged(source, course).groups.contains_key(p));
    }
}

/// What is reported of a group, in the terms of the library.
proof fn lemma_group_event(
    dest: DatabaseModel,
    source: DatabaseModel,
    now: NaiveDateTime,
    course: MergeCourse,
    after: DatabaseModel,
    g: GroupId,
    event_type: MergeEventType,
)
    requires
        dest.wf(),
        source.wf(),
        0 <= ticks(now),
        merged(dest, source, now, course, after),
    ensures
        ({
            let event = MergeEvent { target: MergeEventTarget::Group(g), event_type };
            let aligned = aligned_source(course.base, source, course.imports);
            let grown = enlarged(source, course);
            let settled = arranged(source, now, course);
            group_reported(merge_notes(source, now, course), g, event_type) <==> match event_type {
                MergeEventType::Created => group_created(course.start, aligned, g),
                MergeEventType::Deleted => group_gone(settled, aligned, g),
                _ => group_shared(grown.groups, aligned, g) && group_reconciling_notes(
                    grown.groups[g],
                    aligned.groups[g],
                    place_present(grown.groups, aligned.groups[g]),
                    now,
                ).events.contains(event),
            }
        }),
{
    let event = MergeEvent { target: MergeEventTarget::Group(g), event_type };
    let aligned = aligned_source(course.base, source, course.imports);
    let grown = enlarged(source, course);
    let settled = arranged(source, now, course);
    let entries = course.groups.entries;
    lemma_parts(dest, source, now, course, event);
    lemma_adopted_alike(dest, source, course.translation, course.base);
    lemma_alike(course.base, source, course.imports, course.start);
    lemma_arranged(dest, source, now, course, after);
    // Entries say nothing of groups.
    let c1 = |x: EntryId| creation_notes(grown, aligned, x);
    let c2 = |x: EntryId| removal_notes(grown, aligned, x);
    let c3 = |x: EntryId| shared_notes(grown, aligned, entries.copies[x], now, x);
    lemma_collected(entries.source_walk, c1, event);
    lemma_collected(entries.dest_walk, c2, event);
    lemma_collected(entries.dest_walk, c3, event);
    assert forall|x: EntryId| !(#[trigger] c1(x)).events.contains(event) by {}
    assert forall|x: EntryId| !(#[trigger] c2(x)).events.contains(event) by {}
    assert forall|x: EntryId| !(#[trigger] c3(x)).events.contains(event) by {
        if entry_shared(grown, aligned, x) {
            lemma_reconciling(
                grown.entries[x],
                entries.copies[x],
                grown.groups.contains_key(aligned.entries[x].parent),
                now,
                event,
            );
        }
    }
    // Groups speak of themselves.
    let a = |x: GroupId| group_creation_notes(x);
    let b = |x: GroupId| group_removal_notes(settled, aligned, x);
    let d = |x: GroupId| shared_group_notes(grown.groups, aligned, now, x);
    assert forall|x: GroupId| #[trigger] course.groups.reconciled.contains(x) && d(x).events.contains(event) implies x == g by {
        if group_shared(grown.groups, aligned, x) {
            lemma_group_id(dest, source, now, course, after, x);
            lemma_group_events(
                grown.groups[x],
                aligned.groups[x],
                place_present(grown.groups, aligned.groups[x]),
                now,
                event,
            );
        }
    }
    lemma_collected_of(course.groups.created, a, event, g);
    lemma_collected_of(course.groups.deleted, b, event, g);
    lemma_collected_of(course.groups.reconciled, d, event, g);
    assert(course.groups.deleted.contains(g) == course.groups.deleted.to_set().contains(g));
    assert(course.groups.reconciled.contains(g) == course.groups.reconciled.to_set().contains(g));
    let created = LogModel::event(MergeEventTarget::Group(g), MergeEventType::Created);
    let deleted = LogModel::event(MergeEventTarget::Group(g), MergeEventType::Deleted);
    assert(created.events.contains(event) <==> event_type is Created) by {
        assert(created.events[0] == MergeEvent {
            target: MergeEventTarget::Group(g),
            event_type: MergeEventType::Created,
        });
    }
    assert(deleted.events.contains(event) <==> event_type is Deleted) by {
        assert(deleted.events[0] == MergeEvent {
            target: MergeEventTarget::Group(g),
            event_type: MergeEventType::Deleted,
        });
    }
    if group_shared(grown.groups, aligned, g) {
        lemma_group_events(
            grown.groups[g],
            aligned.groups[g],
            place_present(grown.groups, aligned.groups[g]),
            now,
            event,
        );
    }
    assert(group_gone(settled, aligned, g) ==> grown.groups.contains_key(g));
}

/// A group has its own identifier.
pub proof fn lemma_group_id(
    dest: DatabaseModel,
    source: DatabaseModel,
    now: NaiveDateTime,
    course: MergeCourse,
    after: DatabaseModel,
    x: GroupId,
)
    requires
        dest.wf(),
        source.wf(),
        merged(dest, source, now, course, after),
        group_shared(
            enlarged(source, course).groups,
            aligned_source(course.base, source, course.imports),
            x,
        ),
    ensures
        enlarged(source, course).groups[x].id == x,
{
    lemma_adopted_alike(dest, source, course.translation, course.base);
    lemma_alike(course.base, source, course.imports, course.start);
    assert(course.base.groups.dom().contains(x) == dest.groups.dom().contains(x));
    assert(source.groups[x].id == x);
    if dest.groups.contains_key(x) {
        assert(dest.groups[x].id == x);
    }
}

} // verus!

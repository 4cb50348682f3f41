//! What a merge does to each object, field by field.
use vstd::prelude::*;

use crate::datetime::NaiveDateTime;
use crate::db::database::DatabaseModel;
use crate::db::icon::Icon;
use crate::db::times::Times;
use crate::ids::{EntryId, GroupId, Uuid};
use crate::merge::arrivals::{group_created, with_new_groups};
use crate::merge::attachments::imported_version;
use crate::merge::deletion_laws::{
    arranged, enlarged, entry_deleted_there_is_removed, group_deleted_there_is_removed,
    lemma_arranged, lemma_created_in_source, lemma_lasting_stays, shared_entry_stays,
};
use crate::merge::departures::{entry_lasts, group_gone, group_lasts, lemma_kept_by_source};
use crate::merge::entries::{
    entry_created, entry_removed, entry_shared, outlives, reconciled_entry, spared,
};
use crate::merge::field_laws::{
    entry_holds, later_entry_counts_field_by_field, later_move_counts, ticks, ticks_or,
    time_goes_on,
};
use crate::merge::icon_imports::{aligned_source, lemma_adopted_alike, lemma_alike};
use crate::merge::icons::retargeted_entry;
use crate::merge::{merged, MergeCourse};

verus! {

/// When an object was last changed, as a number: its modification or, where that is unknown, its
/// move. Nothing, where both are unknown.
pub open spec fn last_tick(times: Times) -> Option<int> {
    match (times.last_modification, times.location_changed) {
        (Some(t), _) => Some(ticks(t)),
        (None, Some(t)) => Some(ticks(t)),
        (None, None) => None,
    }
}

/// An icon is not a custom one, or it is one that a database has.
pub open spec fn is_shown(icon: Option<Icon>, db: DatabaseModel) -> bool {
    icon matches Some(Icon::Custom(i)) ==> db.custom_icons.contains_key(i)
}

/// Something was changed after a deletion, both moments being known.
pub open spec fn changed_since(times: Times, deletion: Option<NaiveDateTime>) -> bool {
    match (last_tick(times), deletion) {
        (Some(change), Some(deletion)) => change > ticks(deletion),
        _ => false,
    }
}

/// The last change is what the library takes for it.
pub proof fn lemma_changed_since(times: Times, deletion: Option<NaiveDateTime>)
    ensures
        changed_since(times, deletion) == spared(times.spec_last_change(), deletion),
        outlives(times.spec_last_change(), deletion) == (last_tick(times) is Some && (deletion is None
            || changed_since(times, deletion))),
{
    if times.spec_last_change() is Some && deletion is Some {
        time_goes_on(times.spec_last_change()->0, deletion->0);
    }
}

/// What an entry that both databases have is merged from.
pub proof fn lemma_shared_entry(
    dest: DatabaseModel,
    source: DatabaseModel,
    now: NaiveDateTime,
    course: MergeCourse,
    after: DatabaseModel,
    e: EntryId,
)
    requires
        merged(dest, source, now, course, after),
        dest.entries.contains_key(e),
        source.entries.contains_key(e),
    ensures
        ({
            let own = retargeted_entry(dest.entries[e], course.translation);
            let copy = course.groups.entries.copies[e];
            let target = enlarged(source, course).groups.contains_key(source.entries[e].parent);
            &&& after.entries.contains_key(e)
            &&& after.entries[e] == reconciled_entry(own, copy, target, now)
            &&& entry_holds(copy, source.entries[e])
            &&& copy.times == source.entries[e].times
            &&& copy.parent == source.entries[e].parent
            &&& copy.attachments.dom() == source.entries[e].attachments.dom()
        }),
{
    let aligned = aligned_source(course.base, source, course.imports);
    let grown = enlarged(source, course);
    let copy = course.groups.entries.copies[e];
    lemma_adopted_alike(dest, source, course.translation, course.base);
    lemma_alike(course.base, source, course.imports, course.start);
    lemma_arranged(dest, source, now, course, after);
    shared_entry_stays(dest, source, now, course, after, e);
    assert(aligned.entries.contains_key(e));
    assert(grown.entries.contains_key(e));
    assert(entry_shared(grown, aligned, e));
    assert(arranged(source, now, course).entries.contains_key(e));
    assert(copy.with_history(None).fields == aligned.entries[e].with_history(None).fields);
    assert(copy.with_history(None).attachments.dom() == aligned.entries[e].with_history(None).attachments.dom());
    assert(copy.with_history(None).times == aligned.entries[e].times);
}

/// The group of an entry of the source is there when entries are merged exactly if it is there
/// afterwards.
pub proof fn lemma_target(
    dest: DatabaseModel,
    source: DatabaseModel,
    now: NaiveDateTime,
    course: MergeCourse,
    after: DatabaseModel,
    e: EntryId,
)
    requires
        source.wf(),
        merged(dest, source, now, course, after),
        source.entries.contains_key(e),
    ensures
        enlarged(source, course).groups.contains_key(source.entries[e].parent) <==> after.groups.contains_key(
            source.entries[e].parent,
        ),
{
    let p = source.entries[e].parent;
    let aligned = aligned_source(course.base, source, course.imports);
    let settled = arranged(source, now, course);
    lemma_adopted_alike(dest, source, course.translation, course.base);
    lemma_alike(course.base, source, course.imports, course.start);
    lemma_arranged(dest, source, now, course, after);
    assert(source.groups.contains_key(p));
    assert(aligned.groups.contains_key(p));
    assert(settled.groups.contains_key(p) <==> enlarged(source, course).groups.contains_key(p));
    assert(group_lasts(settled, aligned, p));
    lemma_lasting_stays(dest, source, now, course, after, p, e);
}

/// An entry that both databases have stays, and holds what its later version holds, in every field.
/// An undated version of the source counts as of the start of 1970, and one of the destination as of
/// the moment of the merge.
pub proof fn shared_entry_holds_the_later_version(
    dest: DatabaseModel,
    source: DatabaseModel,
    now: NaiveDateTime,
    course: MergeCourse,
    after: DatabaseModel,
    e: EntryId,
)
    requires
        merged(dest, source, now, course, after),
        dest.entries.contains_key(e),
        source.entries.contains_key(e),
    ensures
        ({
            let own = dest.entries[e];
            let theirs = source.entries[e];
            let kept = after.entries[e];
            let later = ticks_or(theirs.times.last_modification, 0) > ticks_or(
                own.times.last_modification,
                ticks(now),
            );
            let winner = if later {
                theirs
            } else {
                own
            };
            &&& after.entries.contains_key(e)
            &&& entry_holds(kept, winner)
            &&& kept.attachments.dom() == winner.attachments.dom()
            &&& !later ==> kept.attachments == own.attachments
            &&& kept.times.last_modification == winner.times.last_modification
            &&& kept.times.creation == own.times.creation
            &&& kept.times.last_access == own.times.last_access
            &&& kept.times.expiry == own.times.expiry
            &&& kept.times.expires == own.times.expires
            &&& kept.times.usage_count == own.times.usage_count
        }),
{
    let own = retargeted_entry(dest.entries[e], course.translation);
    let copy = course.groups.entries.copies[e];
    let target = enlarged(source, course).groups.contains_key(source.entries[e].parent);
    lemma_shared_entry(dest, source, now, course, after, e);
    later_entry_counts_field_by_field(own, copy, target, now);
}

/// An entry that both databases have stands in the group in which the source has it exactly if the
/// two are different, the source moved it later, and the group is there. Otherwise it stays.
pub proof fn shared_entry_stands_where_it_was_moved_last(
    dest: DatabaseModel,
    source: DatabaseModel,
    now: NaiveDateTime,
    course: MergeCourse,
    after: DatabaseModel,
    e: EntryId,
)
    requires
        source.wf(),
        merged(dest, source, now, course, after),
        dest.entries.contains_key(e),
        source.entries.contains_key(e),
    ensures
        ({
            let own = dest.entries[e];
            let theirs = source.entries[e];
            let moves = match (own.times.location_changed, theirs.times.location_changed) {
                (Some(d), Some(s)) => own.parent != theirs.parent && ticks(s) > ticks(d)
                    && after.groups.contains_key(theirs.parent),
                _ => false,
            };
            &&& moves ==> after.entries[e].parent == theirs.parent && after.entries[e].times.location_changed
                == theirs.times.location_changed
            &&& !moves ==> after.entries[e].parent == own.parent
            &&& !moves && own.times.location_changed is Some ==> after.entries[e].times.location_changed
                == own.times.location_changed
        }),
{
    let own = retargeted_entry(dest.entries[e], course.translation);
    let copy = course.groups.entries.copies[e];
    let target = enlarged(source, course).groups.contains_key(source.entries[e].parent);
    lemma_shared_entry(dest, source, now, course, after, e);
    lemma_target(dest, source, now, course, after, e);
    later_move_counts(own, copy, target, now);
}

/// An entry that only the source has is added exactly if its group is there and the destination did
/// not delete it, or deleted it before its last change. It is added as it is.
pub proof fn new_entry_is_taken_over(
    dest: DatabaseModel,
    source: DatabaseModel,
    now: NaiveDateTime,
    course: MergeCourse,
    after: DatabaseModel,
    e: EntryId,
)
    requires
        source.wf(),
        merged(dest, source, now, course, after),
        !dest.entries.contains_key(e),
        source.entries.contains_key(e),
    ensures
        ({
            let theirs = source.entries[e];
            let wanted = dest.deleted_objects.contains_key(e.uuid) ==> last_tick(theirs.times) is Some && (
            dest.deleted_objects[e.uuid] is None || changed_since(theirs.times, dest.deleted_objects[e.uuid]));
            &&& after.entries.contains_key(e) <==> wanted && after.groups.contains_key(theirs.parent)
            &&& after.entries.contains_key(e) ==> {
                let added = after.entries[e];
                &&& entry_holds(added, theirs)
                &&& added.id == theirs.id
                &&& added.parent == theirs.parent
                &&& added.times == theirs.times
                &&& added.attachments.dom() == theirs.attachments.dom()
                &&& added.history is Some <==> theirs.history is Some
                &&& theirs.history is Some ==> added.history->0.len() == theirs.history->0.len()
                &&& theirs.history is Some ==> forall|i: int|
                    0 <= i < theirs.history->0.len() ==> entry_holds(
                        #[trigger] added.history->0[i],
                        theirs.history->0[i],
                    ) && added.history->0[i].times == theirs.history->0[i].times
            }
        }),
{
    let aligned = aligned_source(course.base, source, course.imports);
    let grown = enlarged(source, course);
    let plain = with_new_groups(dest, source);
    let settled = arranged(source, now, course);
    let copy = course.groups.entries.copies[e];
    let theirs = source.entries[e];
    lemma_adopted_alike(dest, source, course.translation, course.base);
    lemma_alike(course.base, source, course.imports, course.start);
    lemma_arranged(dest, source, now, course, after);
    lemma_target(dest, source, now, course, after, e);
    if dest.deleted_objects.contains_key(e.uuid) {
        lemma_changed_since(theirs.times, dest.deleted_objects[e.uuid]);
    }
    assert(aligned.entries.contains_key(e));
    assert(!grown.entries.contains_key(e));
    assert(grown.groups.contains_key(theirs.parent) <==> plain.groups.contains_key(theirs.parent)) by {
        assert(group_created(course.start, aligned, theirs.parent) <==> group_created(
            course.base,
            source,
            theirs.parent,
        ));
        assert(group_created(course.base, source, theirs.parent) <==> group_created(dest, source, theirs.parent));
        assert(course.base.groups.dom().contains(theirs.parent) == dest.groups.dom().contains(theirs.parent));
    }
    if entry_created(plain, source, e) {
        assert(settled.entries.contains_key(e));
        assert(entry_lasts(settled, aligned, e));
        lemma_lasting_stays(dest, source, now, course, after, theirs.parent, e);
        assert(entry_created(grown, aligned, e) && !entry_shared(grown, aligned, e));
        assert(settled.entries[e] == copy);
        assert(copy.with_history(None).fields == aligned.entries[e].with_history(None).fields);
        assert(copy.with_history(None).attachments.dom() == aligned.entries[e].with_history(None).attachments.dom());
        if theirs.history is Some {
            assert forall|i: int| 0 <= i < theirs.history->0.len() implies entry_holds(
                #[trigger] copy.history->0[i],
                theirs.history->0[i],
            ) && copy.history->0[i].times == theirs.history->0[i].times by {
                assert(imported_version(
                    aligned.entries[e].history->0[i],
                    copy.history->0[i],
                    aligned.attachments,
                    course.groups.middle.attachments,
                ));
            }
        }
    } else {
        assert(!settled.entries.contains_key(e));
    }
}

/// An entry that only the destination has, and that the source deleted, is removed exactly if it was
/// not changed after that. Then its deletion is on record.
pub proof fn deleted_entry_is_removed(
    dest: DatabaseModel,
    source: DatabaseModel,
    now: NaiveDateTime,
    course: MergeCourse,
    after: DatabaseModel,
    e: EntryId,
)
    requires
        merged(dest, source, now, course, after),
        dest.entries.contains_key(e),
        !source.entries.contains_key(e),
        source.deleted_objects.contains_key(e.uuid),
    ensures
        after.entries.contains_key(e) <==> changed_since(dest.entries[e].times, source.deleted_objects[e.uuid]),
        !after.entries.contains_key(e) ==> after.deleted_objects.contains_key(e.uuid)
            && after.deleted_objects[e.uuid] == source.deleted_objects[e.uuid],
{
    let aligned = aligned_source(course.base, source, course.imports);
    let settled = arranged(source, now, course);
    lemma_adopted_alike(dest, source, course.translation, course.base);
    lemma_alike(course.base, source, course.imports, course.start);
    lemma_changed_since(dest.entries[e].times, source.deleted_objects[e.uuid]);
    lemma_arranged(dest, source, now, course, after);
    if entry_removed(dest, source, e) {
        entry_deleted_there_is_removed(dest, source, now, course, after, e);
    } else {
        assert(settled.entries.contains_key(e));
        assert(entry_lasts(settled, aligned, e));
        lemma_lasting_stays(dest, source, now, course, after, dest.entries[e].parent, e);
    }
}

/// An entry that only the destination has, and that the source did not delete, stays as long as its
/// group does. An entry that stays and that the source does not have stays as it is.
pub proof fn own_entry_is_left_alone(
    dest: DatabaseModel,
    source: DatabaseModel,
    now: NaiveDateTime,
    course: MergeCourse,
    after: DatabaseModel,
    e: EntryId,
)
    requires
        dest.wf(),
        merged(dest, source, now, course, after),
        dest.entries.contains_key(e),
        !source.entries.contains_key(e),
    ensures
        !source.deleted_objects.contains_key(e.uuid) ==> (after.entries.contains_key(e)
            <==> after.groups.contains_key(dest.entries[e].parent)),
        after.entries.contains_key(e) ==> {
            let own = dest.entries[e];
            let kept = after.entries[e];
            &&& entry_holds(kept, own)
            &&& kept.id == own.id
            &&& kept.parent == own.parent
            &&& kept.times == own.times
            &&& kept.attachments == own.attachments
            &&& kept.history is Some <==> own.history is Some
            &&& own.history is Some ==> kept.history->0.len() == own.history->0.len()
            &&& own.history is Some ==> forall|i: int|
                0 <= i < own.history->0.len() ==> entry_holds(#[trigger] kept.history->0[i], own.history->0[i])
                    && kept.history->0[i].times == own.history->0[i].times && kept.history->0[i].attachments
                    == own.history->0[i].attachments && kept.history->0[i].id == own.history->0[i].id
                    && kept.history->0[i].parent == own.history->0[i].parent && (is_shown(
                    own.history->0[i].icon,
                    dest,
                ) ==> kept.history->0[i].icon == own.history->0[i].icon)
        },
{
    let settled = arranged(source, now, course);
    lemma_adopted_alike(dest, source, course.translation, course.base);
    lemma_alike(course.base, source, course.imports, course.start);
    lemma_arranged(dest, source, now, course, after);
    assert(dest.groups.contains_key(dest.entries[e].parent));
    assert(settled.groups.contains_key(dest.entries[e].parent));
    if !entry_removed(dest, source, e) {
        assert(settled.entries.contains_key(e));
        assert(settled.entries[e] == retargeted_entry(dest.entries[e], course.translation));
    }
}

/// A deletion that is on record stays so, and changes only if the object is removed once more. A new one
/// is on record where an object was removed, as the source has it.
pub proof fn deletions_are_kept_and_carried_over(
    dest: DatabaseModel,
    source: DatabaseModel,
    now: NaiveDateTime,
    course: MergeCourse,
    after: DatabaseModel,
    u: Uuid,
)
    requires
        source.wf(),
        merged(dest, source, now, course, after),
    ensures
        ({
            let e = EntryId { uuid: u };
            let g = GroupId { uuid: u };
            let removed = (dest.entries.contains_key(e) && !after.entries.contains_key(e)) || (
            dest.groups.contains_key(g) && !after.groups.contains_key(g));
            &&& dest.deleted_objects.contains_key(u) ==> after.deleted_objects.contains_key(u)
            &&& dest.deleted_objects.contains_key(u) && !removed ==> after.deleted_objects[u]
                == dest.deleted_objects[u]
            &&& after.deleted_objects.contains_key(u) && !dest.deleted_objects.contains_key(u) ==> removed
                && source.deleted_objects.contains_key(u) && after.deleted_objects[u] == source.deleted_objects[u]
        }),
{
    let e = EntryId { uuid: u };
    let g = GroupId { uuid: u };
    let aligned = aligned_source(course.base, source, course.imports);
    let grown = enlarged(source, course);
    let settled = arranged(source, now, course);
    lemma_adopted_alike(dest, source, course.translation, course.base);
    lemma_alike(course.base, source, course.imports, course.start);
    lemma_arranged(dest, source, now, course, after);
    assert(course.base.entries.dom().contains(e) == dest.entries.dom().contains(e));
    assert(course.base.groups.dom().contains(g) == dest.groups.dom().contains(g));
    assert(entry_removed(grown, aligned, e) == entry_removed(dest, source, e));
    if entry_removed(dest, source, e) {
        entry_deleted_there_is_removed(dest, source, now, course, after, e);
    }
    if group_gone(settled, aligned, g) {
        group_deleted_there_is_removed(dest, source, now, course, after, g);
        if !dest.groups.contains_key(g) {
            assert(group_created(dest, source, g));
            lemma_created_in_source(dest, source, g);
            assert(aligned.groups.contains_key(g));
            lemma_kept_by_source(settled, aligned, g);
        }
    }
}

} // verus!

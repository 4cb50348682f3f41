//! What a merge warns of.
use vstd::prelude::*;

use crate::datetime::NaiveDateTime;
use crate::db::database::DatabaseModel;
use crate::db::entry::EntryModel;
use crate::db::group::GroupModel;
use crate::ids::{uuid_text, EntryId, GroupId};
use crate::merge::arrivals::group_creation_notes;
use crate::merge::deletion_laws::{arranged, enlarged};
use crate::merge::departures::group_removal_notes;
use crate::merge::entries::{
    creation_notes, entries_notes, entry_created, entry_level, entry_shared, entry_wanted,
    placing_notes, reconciling_notes, removal_notes, shared_notes, versions,
};
use crate::merge::field_laws::{ticks, ticks_or, time_goes_on};
use crate::merge::group_changes::{
    group_placing_notes, group_reconciling_notes, group_shared, place_present, placed_group,
    reconciled_group, shared_group_notes,
};
use crate::merge::group_event_laws::lemma_place;
use crate::merge::history::history_notes;
use crate::merge::icon_imports::{aligned_source, lemma_adopted_alike, lemma_alike};
use crate::merge::icons::{retargeted_entry, retargeted_group};
use crate::merge::log::{collected, LogModel, MergeEventTarget, MergeEventType, Warning};
use crate::merge::outcome_laws::{
    changed_since, last_tick, lemma_changed_since, lemma_shared_entry, lemma_target,
};
use crate::merge::{merge_notes, merged, MergeCourse};

verus! {

/// A log holds a warning.
#[verifier::opaque]
pub open spec fn warns(log: LogModel, warning: Warning) -> bool {
    log.warnings.contains(warning.text())
}

/// What a warning says.
pub proof fn warnings_say_what_is_wrong(e: EntryId, g: GroupId, p: GroupId, t: NaiveDateTime)
    ensures
        Warning::SourceEntryUndated(e).text() == "Source entry "@ + uuid_text(e.uuid)
            + " did not have a last modification timestamp"@,
        Warning::DestinationEntryUndated(e).text() == "Destination entry "@ + uuid_text(e.uuid)
            + " did not have a last modification timestamp"@,
        Warning::SourceEntryWithoutHistory(e).text() == "Source entry "@ + uuid_text(e.uuid) + " had no history."@,
        Warning::DestinationEntryWithoutHistory(e).text() == "Destination entry "@ + uuid_text(e.uuid)
            + " had no history."@,
        Warning::SourceVersionUndated(e).text() == "Source history entry "@ + uuid_text(e.uuid)
            + " did not have a last modification timestamp"@,
        Warning::DestinationVersionUndated(e).text() == "Destination history entry "@ + uuid_text(e.uuid)
            + " did not have a last modification timestamp"@,
        Warning::VersionsDiverged(e, t).text() == "History entries for "@ + uuid_text(e.uuid)
            + " have the same modification timestamp "@ + t.text() + " but have diverged."@,
        Warning::EntryMoveUndecided(e).text() == "Cannot determine which entry "@ + uuid_text(e.uuid)
            + " move is more recent because one of the entries does not have a location changed timestamp."@,
        Warning::EntryMoveTargetMissing(e, p).text() == "Cannot move entry "@ + uuid_text(e.uuid) + " to group "@
            + uuid_text(p.uuid) + " because the group does not exist in the destination database."@,
        Warning::EntryParentMissing(e, p).text() == "Cannot add entry "@ + uuid_text(e.uuid)
            + " because its parent group "@ + uuid_text(p.uuid) + " does not exist in the destination database."@,
        Warning::SourceGroupUndated(g).text() == "Source group "@ + uuid_text(g.uuid)
            + " did not have a last modification timestamp"@,
        Warning::DestinationGroupUndated(g).text() == "Destination group "@ + uuid_text(g.uuid)
            + " did not have a last modification timestamp"@,
        Warning::GroupMoveUndecided(g).text() == "Cannot determine which group "@ + uuid_text(g.uuid)
            + " move is more recent because one of the groups does not have a location changed timestamp."@,
        Warning::GroupMoveTargetMissing(g, p).text() == "Cannot move group "@ + uuid_text(g.uuid) + " to group "@
            + uuid_text(p.uuid) + " because the group does not exist in the destination database."@,
        Warning::RootGroupMoved(g).text() == "Cannot move root group "@ + uuid_text(g.uuid),
{
}

/// What two logs warn of together.
proof fn lemma_plus(a: LogModel, b: LogModel, w: Warning)
    requires
        warns(a, w) || warns(b, w),
    ensures
        warns(a.plus(b), w),
{
    reveal(warns);
    let text = w.text();
    let both = a.warnings + b.warnings;
    if a.warnings.contains(text) {
        let i = choose|i: int| 0 <= i < a.warnings.len() && a.warnings[i] == text;
        assert(both[i] == text);
    } else {
        let i = choose|i: int| 0 <= i < b.warnings.len() && b.warnings[i] == text;
        assert(both[a.warnings.len() + i] == text);
    }
}

/// What an item of a walk warns of, the walk warns of.
proof fn lemma_collected<A>(walk: Seq<A>, notes: spec_fn(A) -> LogModel, w: Warning, x: A)
    requires
        walk.contains(x),
        warns(notes(x), w),
    ensures
        warns(collected(walk, notes), w),
    decreases walk.len(),
{
    let front = walk.drop_last();
    let i = choose|i: int| 0 <= i < walk.len() && walk[i] == x;
    if i < front.len() {
        assert(front[i] == x);
        lemma_collected(front, notes, w, x);
    }
    lemma_plus(collected(front, notes), notes(walk.last()), w);
}

/// The parts of what a merge warns of.
proof fn lemma_parts(source: DatabaseModel, now: NaiveDateTime, course: MergeCourse, w: Warning)
    requires
        ({
            let aligned = aligned_source(course.base, source, course.imports);
            let grown = enlarged(source, course);
            let entries = course.groups.entries;
            ||| warns(collected(entries.source_walk, |e: EntryId| creation_notes(grown, aligned, e)), w)
            ||| warns(
                collected(entries.dest_walk, |e: EntryId| shared_notes(grown, aligned, entries.copies[e], now, e)),
                w,
            )
            ||| warns(
                collected(course.groups.reconciled, |g: GroupId| shared_group_notes(grown.groups, aligned, now, g)),
                w,
            )
        }),
    ensures
        warns(merge_notes(source, now, course), w),
{
    let aligned = aligned_source(course.base, source, course.imports);
    let grown = enlarged(source, course);
    let settled = arranged(source, now, course);
    let entries = course.groups.entries;
    let a = collected(course.groups.created, |g: GroupId| group_creation_notes(g));
    let b = collected(course.groups.deleted, |g: GroupId| group_removal_notes(settled, aligned, g));
    let c1 = collected(entries.source_walk, |e: EntryId| creation_notes(grown, aligned, e));
    let c2 = collected(entries.dest_walk, |e: EntryId| removal_notes(grown, aligned, e));
    let c3 = collected(
        entries.dest_walk,
        |e: EntryId| shared_notes(grown, aligned, entries.copies[e], now, e),
    );
    let c = entries_notes(grown, aligned, now, entries);
    let d = collected(course.groups.reconciled, |g: GroupId| shared_group_notes(grown.groups, aligned, now, g));
    assert(c == c1.plus(c2).plus(c3));
    assert(merge_notes(source, now, course) == a.plus(b).plus(c).plus(d));
    if warns(d, w) {
        lemma_plus(a.plus(b).plus(c), d, w);
    } else {
        if warns(c3, w) {
            lemma_plus(c1.plus(c2), c3, w);
        } else {
            lemma_plus(c1, c2, w);
            lemma_plus(c1.plus(c2), c3, w);
        }
        lemma_plus(a.plus(b), c, w);
        lemma_plus(a.plus(b).plus(c), d, w);
    }
}

/// A log that holds one warning.
proof fn lemma_one(warning: Warning)
    ensures
        warns(LogModel::warning(warning), warning),
{
    reveal(warns);
    assert(LogModel::warning(warning).warnings[0] == warning.text());
}

/// What is warned of when two versions of an entry are merged.
proof fn lemma_reconciling(dest: EntryModel, source: EntryModel, target_present: bool, now: NaiveDateTime)
    ensures
        ({
            let log = reconciling_notes(dest, source, target_present, now);
            let level = ticks_or(dest.times.last_modification, ticks(now)) == ticks_or(
                source.times.last_modification,
                0,
            );
            &&& source.times.last_modification is None ==> warns(log, Warning::SourceEntryUndated(dest.id))
            &&& dest.times.last_modification is None ==> warns(log, Warning::DestinationEntryUndated(dest.id))
            &&& !level && dest != source && source.history is None ==> warns(log, Warning::SourceEntryWithoutHistory(dest.id))
            &&& !level && dest != source && dest.history is None ==> warns(log, Warning::DestinationEntryWithoutHistory(dest.id))
            &&& dest.parent != source.parent && (dest.times.location_changed is None
                || source.times.location_changed is None) ==> warns(log, Warning::EntryMoveUndecided(dest.id))
            &&& dest.parent != source.parent && dest.times.location_changed is Some
                && source.times.location_changed is Some && ticks(source.times.location_changed->0) > ticks(
                dest.times.location_changed->0,
            ) && !target_present ==> warns(log, Warning::EntryMoveTargetMissing(dest.id, source.parent))
        }),
{
    let epoch = NaiveDateTime::spec_epoch();
    let d = match dest.times.last_modification {
        Some(t) => t,
        None => now,
    };
    let s = match source.times.last_modification {
        Some(t) => t,
        None => epoch,
    };
    time_goes_on(d, s);
    time_goes_on(s, epoch);
    if dest.times.location_changed is Some && source.times.location_changed is Some {
        time_goes_on(source.times.location_changed->0, dest.times.location_changed->0);
    }
    let a = placing_notes(dest, source, target_present);
    let su = Warning::SourceEntryUndated(dest.id);
    let du = Warning::DestinationEntryUndated(dest.id);
    let sh = Warning::SourceEntryWithoutHistory(dest.id);
    let dh = Warning::DestinationEntryWithoutHistory(dest.id);
    let b = LogModel::warning(su).only_if(source.times.last_modification is None);
    let c = LogModel::warning(du).only_if(dest.times.last_modification is None);
    let h1 = LogModel::warning(sh).only_if(source.history is None);
    let h2 = LogModel::warning(dh).only_if(dest.history is None);
    let log = reconciling_notes(dest, source, target_present, now);
    let first = a.plus(b).plus(c);
    let last = if entry_level(dest, source, now) {
        LogModel::empty()
    } else {
        h1.plus(h2).plus(history_notes(versions(dest), versions(source))).plus(
            LogModel::event(
                MergeEventTarget::Entry(dest.id),
                MergeEventType::Updated,
            ).only_if(s.is_after(d)),
        )
    };
    assert(log == first.plus(last));
    lemma_one(su);
    lemma_one(du);
    lemma_one(sh);
    lemma_one(dh);
    lemma_one(Warning::EntryMoveUndecided(dest.id));
    lemma_one(Warning::EntryMoveTargetMissing(dest.id, source.parent));
    if source.times.last_modification is None {
        lemma_plus(a, b, su);
        lemma_plus(a.plus(b), c, su);
        lemma_plus(first, last, su);
    }
    if dest.times.last_modification is None {
        lemma_plus(a.plus(b), c, du);
        lemma_plus(first, last, du);
    }
    if !entry_level(dest, source, now) {
        let history = history_notes(versions(dest), versions(source));
        let update = LogModel::event(MergeEventTarget::Entry(dest.id), MergeEventType::Updated).only_if(
            s.is_after(d),
        );
        if source.history is None {
            lemma_plus(h1, h2, sh);
            lemma_plus(h1.plus(h2), history, sh);
            lemma_plus(h1.plus(h2).plus(history), update, sh);
            lemma_plus(first, last, sh);
        }
        if dest.history is None {
            lemma_plus(h1, h2, dh);
            lemma_plus(h1.plus(h2), history, dh);
            lemma_plus(h1.plus(h2).plus(history), update, dh);
            lemma_plus(first, last, dh);
        }
    }
    let undecided = Warning::EntryMoveUndecided(dest.id);
    let missing = Warning::EntryMoveTargetMissing(dest.id, source.parent);
    if dest.parent != source.parent {
        if dest.times.location_changed is None || source.times.location_changed is None {
            assert(a == LogModel::warning(undecided));
            lemma_plus(a, b, undecided);
            lemma_plus(a.plus(b), c, undecided);
            lemma_plus(first, last, undecided);
        } else if source.times.location_changed->0.is_after(dest.times.location_changed->0) && !target_present {
            assert(a == LogModel::warning(missing));
            lemma_plus(a, b, missing);
            lemma_plus(a.plus(b), c, missing);
            lemma_plus(first, last, missing);
        }
    }
}

/// A merge warns of every entry that both databases have and that is undated in one of them.
pub proof fn undated_entries_are_warned_of(
    dest: DatabaseModel,
    source: DatabaseModel,
    now: NaiveDateTime,
    course: MergeCourse,
    after: DatabaseModel,
    e: EntryId,
)
    requires
        dest.wf(),
        merged(dest, source, now, course, after),
        dest.entries.contains_key(e),
        source.entries.contains_key(e),
    ensures
        source.entries[e].times.last_modification is None ==> warns(
            merge_notes(source, now, course),
            Warning::SourceEntryUndated(e),
        ),
        dest.entries[e].times.last_modification is None ==> warns(
            merge_notes(source, now, course),
            Warning::DestinationEntryUndated(e),
        ),
{
    lemma_shared_warnings(dest, source, now, course, after, e, Warning::SourceEntryUndated(e));
    lemma_shared_warnings(dest, source, now, course, after, e, Warning::DestinationEntryUndated(e));
}

/// A merge warns of every entry that both databases have in different groups, if it is not known when it
/// was moved in one of them, or if it was to be moved to a group that is not there.
pub proof fn undecided_moves_of_entries_are_warned_of(
    dest: DatabaseModel,
    source: DatabaseModel,
    now: NaiveDateTime,
    course: MergeCourse,
    after: DatabaseModel,
    e: EntryId,
)
    requires
        dest.wf(),
        source.wf(),
        merged(dest, source, now, course, after),
        dest.entries.contains_key(e),
        source.entries.contains_key(e),
        dest.entries[e].parent != source.entries[e].parent,
    ensures
        dest.entries[e].times.location_changed is None || source.entries[e].times.location_changed is None
            ==> warns(merge_notes(source, now, course), Warning::EntryMoveUndecided(e)),
        dest.entries[e].times.location_changed is Some && source.entries[e].times.location_changed is Some && ticks(
            source.entries[e].times.location_changed->0,
        ) > ticks(dest.entries[e].times.location_changed->0) && !after.groups.contains_key(source.entries[e].parent)
            ==> warns(
            merge_notes(source, now, course),
            Warning::EntryMoveTargetMissing(e, source.entries[e].parent),
        ),
{
    lemma_target(dest, source, now, course, after, e);
    lemma_shared_warnings(dest, source, now, course, after, e, Warning::EntryMoveUndecided(e));
    lemma_shared_warnings(
        dest,
        source,
        now,
        course,
        after,
        e,
        Warning::EntryMoveTargetMissing(e, source.entries[e].parent),
    );
}

/// A merge warns of every entry that has no history in one of the databases, if one version is later
/// than the other.
pub proof fn missing_histories_are_warned_of(
    dest: DatabaseModel,
    source: DatabaseModel,
    now: NaiveDateTime,
    course: MergeCourse,
    after: DatabaseModel,
    e: EntryId,
)
    requires
        dest.wf(),
        merged(dest, source, now, course, after),
        dest.entries.contains_key(e),
        source.entries.contains_key(e),
        dest.entries[e].times.last_modification != source.entries[e].times.last_modification,
        ticks_or(dest.entries[e].times.last_modification, ticks(now)) != ticks_or(
            source.entries[e].times.last_modification,
            0,
        ),
    ensures
        source.entries[e].history is None ==> warns(
            merge_notes(source, now, course),
            Warning::SourceEntryWithoutHistory(e),
        ),
        dest.entries[e].history is None ==> warns(
            merge_notes(source, now, course),
            Warning::DestinationEntryWithoutHistory(e),
        ),
{
    lemma_shared_warnings(dest, source, now, course, after, e, Warning::SourceEntryWithoutHistory(e));
    lemma_shared_warnings(dest, source, now, course, after, e, Warning::DestinationEntryWithoutHistory(e));
}

/// What is warned of an entry that both databases have, the merge warns of.
proof fn lemma_shared_warnings(
    dest: DatabaseModel,
    source: DatabaseModel,
    now: NaiveDateTime,
    course: MergeCourse,
    after: DatabaseModel,
    e: EntryId,
    w: Warning,
)
    requires
        dest.wf(),
        merged(dest, source, now, course, after),
        dest.entries.contains_key(e),
        source.entries.contains_key(e),
    ensures
        ({
            let own = retargeted_entry(dest.entries[e], course.translation);
            let copy = course.groups.entries.copies[e];
            let target = enlarged(source, course).groups.contains_key(source.entries[e].parent);
            let own_log = reconciling_notes(own, copy, target, now);
            let level = ticks_or(own.times.last_modification, ticks(now)) == ticks_or(
                copy.times.last_modification,
                0,
            );
            &&& warns(own_log, w) ==> warns(merge_notes(source, now, course), w)
            &&& own.id == e
            &&& copy.times == source.entries[e].times
            &&& copy.parent == source.entries[e].parent
            &&& copy.history is None <==> source.entries[e].history is None
            &&& source.entries[e].times.last_modification is None ==> warns(own_log, Warning::SourceEntryUndated(e))
            &&& dest.entries[e].times.last_modification is None ==> warns(own_log, Warning::DestinationEntryUndated(e))
            &&& !level && own != copy && source.entries[e].history is None ==> warns(own_log, Warning::SourceEntryWithoutHistory(e))
            &&& !level && own != copy && dest.entries[e].history is None ==> warns(own_log, Warning::DestinationEntryWithoutHistory(e))
            &&& own.parent != copy.parent && (own.times.location_changed is None || copy.times.location_changed is None)
                ==> warns(own_log, Warning::EntryMoveUndecided(e))
            &&& own.parent != copy.parent && own.times.location_changed is Some && copy.times.location_changed is Some
                && ticks(copy.times.location_changed->0) > ticks(own.times.location_changed->0) && !target
                ==> warns(own_log, Warning::EntryMoveTargetMissing(e, copy.parent))
        }),
{
    let aligned = aligned_source(course.base, source, course.imports);
    let grown = enlarged(source, course);
    let entries = course.groups.entries;
    let own = retargeted_entry(dest.entries[e], course.translation);
    let copy = entries.copies[e];
    let target = grown.groups.contains_key(source.entries[e].parent);
    lemma_adopted_alike(dest, source, course.translation, course.base);
    lemma_alike(course.base, source, course.imports, course.start);
    lemma_shared_entry(dest, source, now, course, after, e);
    assert(course.base.entries.dom().contains(e) == dest.entries.dom().contains(e));
    assert(aligned.entries.contains_key(e));
    assert(entry_shared(grown, aligned, e));
    assert(grown.entries[e] == own);
    assert(dest.entries[e].id == e);
    lemma_reconciling(own, copy, target, now);
    let notes = |x: EntryId| shared_notes(grown, aligned, entries.copies[x], now, x);
    assert(notes(e) == reconciling_notes(own, copy, target, now));
    assert(entries.dest_walk.to_set().contains(e));
    if warns(reconciling_notes(own, copy, target, now), w) {
        lemma_collected(entries.dest_walk, notes, w, e);
        lemma_parts(source, now, course, w);
    }
}

/// A merge warns of every entry that it would add, if its group is not there.
pub proof fn homeless_entries_are_warned_of(
    dest: DatabaseModel,
    source: DatabaseModel,
    now: NaiveDateTime,
    course: MergeCourse,
    after: DatabaseModel,
    e: EntryId,
)
    requires
        source.wf(),
        merged(dest, source, now, course, after),
        !dest.entries.contains_key(e),
        source.entries.contains_key(e),
        !after.groups.contains_key(source.entries[e].parent),
        dest.deleted_objects.contains_key(e.uuid) ==> last_tick(source.entries[e].times) is Some && (
        dest.deleted_objects[e.uuid] is None || changed_since(
            source.entries[e].times,
            dest.deleted_objects[e.uuid],
        )),
    ensures
        warns(
            merge_notes(source, now, course),
            Warning::EntryParentMissing(e, source.entries[e].parent),
        ),
{
    let aligned = aligned_source(course.base, source, course.imports);
    let grown = enlarged(source, course);
    let entries = course.groups.entries;
    let warning = Warning::EntryParentMissing(e, source.entries[e].parent);
    lemma_adopted_alike(dest, source, course.translation, course.base);
    lemma_alike(course.base, source, course.imports, course.start);
    lemma_target(dest, source, now, course, after, e);
    assert(course.base.entries.dom().contains(e) == dest.entries.dom().contains(e));
    assert(aligned.entries.contains_key(e));
    if dest.deleted_objects.contains_key(e.uuid) {
        lemma_changed_since(source.entries[e].times, dest.deleted_objects[e.uuid]);
    }
    assert(entry_wanted(grown, aligned, e) && !entry_created(grown, aligned, e));
    let notes = |x: EntryId| creation_notes(grown, aligned, x);
    assert(notes(e) == LogModel::warning(warning));
    lemma_one(warning);
    assert(entries.source_walk.to_set().contains(e));
    lemma_collected(entries.source_walk, notes, warning, e);
    lemma_parts(source, now, course, warning);
}

/// What is warned of when two versions of a group are merged.
proof fn lemma_group_reconciling(dest: GroupModel, source: GroupModel, target_present: bool, now: NaiveDateTime)
    requires
        target_present ==> source.parent is Some,
    ensures
        ({
            let log = group_reconciling_notes(dest, source, target_present, now);
            let moves = match (dest.times.location_changed, source.times.location_changed) {
                (Some(d), Some(s)) => dest.parent != source.parent && ticks(s) > ticks(d),
                _ => false,
            };
            &&& (moves ==> target_present) && source.times.last_modification is None ==> warns(log, Warning::SourceGroupUndated(dest.id))
            &&& (moves ==> target_present) && dest.times.last_modification is None ==> warns(log, Warning::DestinationGroupUndated(dest.id))
            &&& dest.parent != source.parent && (dest.times.location_changed is None
                || source.times.location_changed is None) ==> warns(log, Warning::GroupMoveUndecided(dest.id))
            &&& moves && source.parent is None ==> warns(log, Warning::RootGroupMoved(dest.id))
            &&& moves && source.parent is Some && !target_present ==> warns(log, Warning::GroupMoveTargetMissing(dest.id, source.parent->0))
        }),
{
    if dest.times.location_changed is Some && source.times.location_changed is Some {
        time_goes_on(source.times.location_changed->0, dest.times.location_changed->0);
    }
    let log = group_reconciling_notes(dest, source, target_present, now);
    let a = group_placing_notes(dest, source, target_present);
    let du = Warning::DestinationGroupUndated(dest.id);
    let su = Warning::SourceGroupUndated(dest.id);
    lemma_one(du);
    lemma_one(su);
    lemma_one(Warning::GroupMoveUndecided(dest.id));
    lemma_one(Warning::RootGroupMoved(dest.id));
    if source.parent is Some {
        lemma_one(Warning::GroupMoveTargetMissing(dest.id, source.parent->0));
    }
    let moves = match (dest.times.location_changed, source.times.location_changed) {
        (Some(d), Some(s)) => dest.parent != source.parent && ticks(s) > ticks(d),
        _ => false,
    };
    let b = LogModel::warning(du).only_if(dest.times.last_modification is None);
    let c = LogModel::warning(su).only_if(source.times.last_modification is None);
    let update = LogModel::event(MergeEventTarget::Group(dest.id), MergeEventType::Updated).only_if(
        reconciled_group(dest, source, target_present, now) != placed_group(dest, source),
    );
    let rest = b.plus(c).plus(update).only_if(moves ==> target_present);
    assert(log == a.plus(rest));
    assert forall|w: Warning| #[trigger] warns(a, w) implies warns(log, w) by {
        lemma_plus(a, rest, w);
    }
    if moves ==> target_present {
        if dest.times.last_modification is None {
            lemma_plus(b, c, du);
            lemma_plus(b.plus(c), update, du);
            lemma_plus(a, rest, du);
        }
        if source.times.last_modification is None {
            lemma_plus(b, c, su);
            lemma_plus(b.plus(c), update, su);
            lemma_plus(a, rest, su);
        }
    }
}

/// A merge warns of every group that both databases have, if it is undated in one of them, or if it is not
/// clear where it stands.
pub proof fn doubtful_groups_are_warned_of(
    dest: DatabaseModel,
    source: DatabaseModel,
    now: NaiveDateTime,
    course: MergeCourse,
    after: DatabaseModel,
    g: GroupId,
)
    requires
        dest.wf(),
        source.wf(),
        merged(dest, source, now, course, after),
        dest.groups.contains_key(g),
        source.groups.contains_key(g),
    ensures
        ({
            let own = dest.groups[g];
            let theirs = source.groups[g];
            let log = merge_notes(source, now, course);
            let target = theirs.parent is Some && after.groups.contains_key(theirs.parent->0);
            let moves = match (own.times.location_changed, theirs.times.location_changed) {
                (Some(d), Some(s)) => own.parent != theirs.parent && ticks(s) > ticks(d),
                _ => false,
            };
            &&& (moves ==> target) && theirs.times.last_modification is None ==> warns(
                log,
                Warning::SourceGroupUndated(g),
            )
            &&& (moves ==> target) && own.times.last_modification is None ==> warns(
                log,
                Warning::DestinationGroupUndated(g),
            )
            &&& own.parent != theirs.parent && (own.times.location_changed is None
                || theirs.times.location_changed is None) ==> warns(log, Warning::GroupMoveUndecided(g))
            &&& moves && theirs.parent is None ==> warns(log, Warning::RootGroupMoved(g))
            &&& moves && theirs.parent is Some && !target ==> warns(
                log,
                Warning::GroupMoveTargetMissing(g, theirs.parent->0),
            )
        }),
{
    let aligned = aligned_source(course.base, source, course.imports);
    let grown = enlarged(source, course);
    let own = retargeted_group(dest.groups[g], course.translation);
    let theirs = aligned.groups[g];
    lemma_adopted_alike(dest, source, course.translation, course.base);
    lemma_alike(course.base, source, course.imports, course.start);
    lemma_place(dest, source, now, course, after, g);
    assert(course.base.groups.dom().contains(g) == dest.groups.dom().contains(g));
    assert(aligned.groups.contains_key(g));
    assert(group_shared(grown.groups, aligned, g));
    assert(grown.groups[g] == own);
    assert(dest.groups[g].id == g);
    let target = place_present(grown.groups, theirs);
    lemma_group_reconciling(own, theirs, target, now);
    let notes = |x: GroupId| shared_group_notes(grown.groups, aligned, now, x);
    assert(notes(g) == group_reconciling_notes(own, theirs, target, now));
    assert(course.groups.reconciled.to_set().contains(g));
    let own_log = group_reconciling_notes(own, theirs, target, now);
    assert forall|w: Warning| #[trigger] warns(own_log, w) implies warns(merge_notes(source, now, course), w) by {
        lemma_collected(course.groups.reconciled, notes, w, g);
        lemma_parts(source, now, course, w);
    }
}

} // verus!

//! What a merge adds, keeps and removes.
use vstd::prelude::*;

use crate::datetime::NaiveDateTime;
use crate::db::database::DatabaseModel;
use crate::db::tree::{
    ancestor, lemma_ancestor_in_tree, lemma_within_self, lemma_within_trans, within, within_any,
};
use crate::ids::{EntryId, GroupId};
use crate::merge::arrivals::{climbs, group_created, group_wanted, with_new_groups};
use crate::merge::departures::{
    decided_at, entry_lasts, gone_groups, group_gone, group_lasts, nothing_lasts,
    outdates_deletion,
};
use crate::merge::entries::{entry_created, entry_removed, entry_shared, outlives, spared};
use crate::merge::group_changes::{group_relocates, group_shared};
use crate::merge::groups::{reduced, settled_groups};
use crate::merge::icon_imports::{aligned_source, lemma_adopted_alike, lemma_alike};
use crate::merge::icons::{retargeted_entry, retargeted_group};
use crate::merge::{merged, MergeCourse};

verus! {

/// The destination with the new groups, before anything else is merged.
pub open spec fn enlarged(source: DatabaseModel, course: MergeCourse) -> DatabaseModel {
    with_new_groups(course.start, aligned_source(course.base, source, course.imports))
}

/// The destination when all entries and groups are where they belong, and none of the groups that
/// are to go is removed yet.
pub open spec fn arranged(source: DatabaseModel, now: NaiveDateTime, course: MergeCourse) -> DatabaseModel {
    settled_groups(course.groups.middle, aligned_source(course.base, source, course.imports), now)
}

/// A group stands in one that is removed.
pub open spec fn removed_with_group(
    source: DatabaseModel,
    now: NaiveDateTime,
    course: MergeCourse,
    g: GroupId,
) -> bool {
    let aligned = aligned_source(course.base, source, course.imports);
    let settled = arranged(source, now, course);
    within_any(settled.tree(), g, gone_groups(settled, aligned))
}

/// A group that is added is one of the source.
pub proof fn lemma_created_in_source(dest: DatabaseModel, source: DatabaseModel, g: GroupId)
    requires
        group_created(dest, source, g),
    ensures
        !dest.groups.contains_key(g),
        exists|from: GroupId| group_wanted(dest, source, from) && #[trigger] within(source.tree(), from, g),
        source.wf() ==> source.groups.contains_key(g),
{
    let (from, n) = choose|from: GroupId, n: nat|
        group_wanted(dest, source, from) && #[trigger] climbs(source.tree(), dest.groups.dom(), from, g, n);
    assert(ancestor(source.tree(), from, n) == Some(g));
    assert(within(source.tree(), from, g));
    if source.wf() {
        assert(source.tree().contains_key(from));
        lemma_ancestor_in_tree(source.tree(), source.root, from, n);
    }
}

/// What holds of groups and entries on the way of a merge.
pub proof fn lemma_arranged(
    dest: DatabaseModel,
    source: DatabaseModel,
    now: NaiveDateTime,
    course: MergeCourse,
    after: DatabaseModel,
)
    requires
        merged(dest, source, now, course, after),
    ensures
        ({
            let settled = arranged(source, now, course);
            &&& forall|g: GroupId| #[trigger]
                settled.groups.contains_key(g) <==> dest.groups.contains_key(g) || group_created(dest, source, g)
            &&& forall|e: EntryId| #[trigger]
                settled.entries.contains_key(e) <==> (dest.entries.contains_key(e) && !entry_removed(
                    dest,
                    source,
                    e,
                )) || entry_created(with_new_groups(dest, source), source, e)
            &&& forall|g: GroupId| #[trigger]
                after.groups.contains_key(g) <==> settled.groups.contains_key(g) && !removed_with_group(
                    source,
                    now,
                    course,
                    g,
                )
            &&& forall|e: EntryId| #[trigger]
                after.entries.contains_key(e) <==> settled.entries.contains_key(e) && !removed_with_group(
                    source,
                    now,
                    course,
                    settled.entries[e].parent,
                )
            &&& forall|e: EntryId| #[trigger]
                after.entries.contains_key(e) ==> after.entries[e] == settled.entries[e]
        }),
{
    let aligned = aligned_source(course.base, source, course.imports);
    let start = course.start;
    let grown = enlarged(source, course);
    let plain = with_new_groups(dest, source);
    let settled = arranged(source, now, course);
    lemma_adopted_alike(dest, source, course.translation, course.base);
    lemma_alike(course.base, source, course.imports, start);
    assert forall|g: GroupId| dest.groups.contains_key(g) <==> #[trigger] course.base.groups.contains_key(g) by {
        assert(dest.groups.dom().contains(g) == course.base.groups.dom().contains(g));
    }
    assert forall|e: EntryId| dest.entries.contains_key(e) <==> #[trigger] course.base.entries.contains_key(e) by {
        assert(dest.entries.dom().contains(e) == course.base.entries.dom().contains(e));
    }
    assert forall|g: GroupId| #[trigger] settled.groups.contains_key(g) <==> dest.groups.contains_key(g)
        || group_created(dest, source, g) by {
        assert(group_created(start, aligned, g) <==> group_created(course.base, source, g));
        assert(group_created(course.base, source, g) <==> group_created(dest, source, g));
    }
    assert forall|e: EntryId| #[trigger] settled.entries.contains_key(e) <==> (dest.entries.contains_key(e)
        && !entry_removed(dest, source, e)) || entry_created(plain, source, e) by {
        assert(entry_removed(grown, aligned, e) == entry_removed(dest, source, e));
        assert(source.entries.contains_key(e) <==> aligned.entries.contains_key(e));
        if source.entries.contains_key(e) {
            let p = source.entries[e].parent;
            assert(group_created(start, aligned, p) <==> group_created(course.base, source, p));
            assert(group_created(course.base, source, p) <==> group_created(dest, source, p));
        }
        assert(entry_created(grown, aligned, e) == entry_created(plain, source, e));
    }
    assert(course.settled == reduced(settled, aligned));
}

/// Nothing that lasts is removed with a group.
pub proof fn lemma_lasting_stays(
    dest: DatabaseModel,
    source: DatabaseModel,
    now: NaiveDateTime,
    course: MergeCourse,
    after: DatabaseModel,
    g: GroupId,
    e: EntryId,
)
    requires
        merged(dest, source, now, course, after),
    ensures
        ({
            let settled = arranged(source, now, course);
            let aligned = aligned_source(course.base, source, course.imports);
            &&& settled.groups.contains_key(g) && group_lasts(settled, aligned, g) ==> after.groups.contains_key(g)
            &&& settled.entries.contains_key(e) && entry_lasts(settled, aligned, e) ==> after.entries.contains_key(e)
        }),
{
    let aligned = aligned_source(course.base, source, course.imports);
    let settled = arranged(source, now, course);
    reveal(nothing_lasts);
    lemma_arranged(dest, source, now, course, after);
    if settled.groups.contains_key(g) && removed_with_group(source, now, course, g) {
        let top = choose|top: GroupId|
            gone_groups(settled, aligned).contains(top) && #[trigger] within(settled.tree(), g, top);
        assert(!group_lasts(settled, aligned, g));
    }
    if settled.entries.contains_key(e) && removed_with_group(source, now, course, settled.entries[e].parent) {
        let top = choose|top: GroupId|
            gone_groups(settled, aligned).contains(top) && #[trigger] within(
                settled.tree(),
                settled.entries[e].parent,
                top,
            );
        assert(!entry_lasts(settled, aligned, e));
    }
}

/// An entry that the destination deleted does not come back, unless the source changed it later.
pub proof fn entry_deleted_here_stays_deleted(
    dest: DatabaseModel,
    source: DatabaseModel,
    now: NaiveDateTime,
    course: MergeCourse,
    after: DatabaseModel,
    e: EntryId,
)
    requires
        merged(dest, source, now, course, after),
        !dest.entries.contains_key(e),
        dest.deleted_objects.contains_key(e.uuid),
        source.entries.contains_key(e) ==> !outlives(
            source.entries[e].times.spec_last_change(),
            dest.deleted_objects[e.uuid],
        ),
    ensures
        !after.entries.contains_key(e),
{
    lemma_arranged(dest, source, now, course, after);
    assert(!arranged(source, now, course).entries.contains_key(e));
}

/// An entry that the source deleted after its last change is removed, and its deletion is on
/// record.
pub proof fn entry_deleted_there_is_removed(
    dest: DatabaseModel,
    source: DatabaseModel,
    now: NaiveDateTime,
    course: MergeCourse,
    after: DatabaseModel,
    e: EntryId,
)
    requires
        merged(dest, source, now, course, after),
        entry_removed(dest, source, e),
    ensures
        !after.entries.contains_key(e),
        after.deleted_objects.contains_key(e.uuid),
        after.deleted_objects[e.uuid] == source.deleted_objects[e.uuid],
{
    lemma_arranged(dest, source, now, course, after);
    assert(!arranged(source, now, course).entries.contains_key(e));
    assert(entry_removed(
        enlarged(source, course),
        aligned_source(course.base, source, course.imports),
        EntryId { uuid: e.uuid },
    ));
}

/// An entry that both databases have stays, whatever becomes of the groups around it.
pub proof fn shared_entry_stays(
    dest: DatabaseModel,
    source: DatabaseModel,
    now: NaiveDateTime,
    course: MergeCourse,
    after: DatabaseModel,
    e: EntryId,
)
    requires
        merged(dest, source, now, course, after),
        entry_shared(dest, source, e),
    ensures
        after.entries.contains_key(e),
{
    lemma_arranged(dest, source, now, course, after);
    assert(arranged(source, now, course).entries.contains_key(e));
    lemma_lasting_stays(dest, source, now, course, after, dest.root, e);
}

/// An entry that was changed after the source deleted it stays as it is but for its icons, even if
/// the source deleted the groups around it too.
pub proof fn entry_changed_after_its_deletion_stays(
    dest: DatabaseModel,
    source: DatabaseModel,
    now: NaiveDateTime,
    course: MergeCourse,
    after: DatabaseModel,
    e: EntryId,
)
    requires
        merged(dest, source, now, course, after),
        dest.entries.contains_key(e),
        !source.entries.contains_key(e),
        source.deleted_objects.contains_key(e.uuid),
        spared(dest.entries[e].times.spec_last_change(), source.deleted_objects[e.uuid]),
    ensures
        after.entries.contains_key(e),
        after.entries[e] == retargeted_entry(dest.entries[e], course.translation),
{
    lemma_arranged(dest, source, now, course, after);
    let settled = arranged(source, now, course);
    assert(settled.entries.contains_key(e));
    assert(settled.entries[e] == retargeted_entry(dest.entries[e], course.translation));
    lemma_lasting_stays(dest, source, now, course, after, dest.root, e);
}

/// An entry that only the destination has stays as it is but for its icons, unless the source
/// deleted it or it stands in a group that is removed.
pub proof fn own_entry_stays(
    dest: DatabaseModel,
    source: DatabaseModel,
    now: NaiveDateTime,
    course: MergeCourse,
    after: DatabaseModel,
    e: EntryId,
)
    requires
        merged(dest, source, now, course, after),
        dest.entries.contains_key(e),
        !source.entries.contains_key(e),
        !entry_removed(dest, source, e),
        !removed_with_group(source, now, course, dest.entries[e].parent),
    ensures
        after.entries.contains_key(e),
        after.entries[e] == retargeted_entry(dest.entries[e], course.translation),
{
    lemma_arranged(dest, source, now, course, after);
    let settled = arranged(source, now, course);
    assert(settled.entries.contains_key(e));
    assert(settled.entries[e] == retargeted_entry(dest.entries[e], course.translation));
}

/// An entry that only the source has is added, in its group, if the destination did not delete it
/// for good and has its group.
pub proof fn new_entry_is_added(
    dest: DatabaseModel,
    source: DatabaseModel,
    now: NaiveDateTime,
    course: MergeCourse,
    after: DatabaseModel,
    e: EntryId,
)
    requires
        merged(dest, source, now, course, after),
        entry_created(with_new_groups(dest, source), source, e),
    ensures
        after.entries.contains_key(e),
        after.entries[e].parent == source.entries[e].parent,
        after.entries[e].fields == source.entries[e].fields,
        after.entries[e].times == source.entries[e].times,
        after.entries[e].attachments.dom() == source.entries[e].attachments.dom(),
{
    let aligned = aligned_source(course.base, source, course.imports);
    let grown = enlarged(source, course);
    let settled = arranged(source, now, course);
    let copy = course.groups.entries.copies[e];
    lemma_adopted_alike(dest, source, course.translation, course.base);
    lemma_alike(course.base, source, course.imports, course.start);
    lemma_arranged(dest, source, now, course, after);
    lemma_lasting_stays(dest, source, now, course, after, dest.root, e);
    assert(source.entries.contains_key(e));
    assert(aligned.entries.contains_key(e));
    assert(settled.entries.contains_key(e));
    assert(entry_created(grown, aligned, e) && !entry_shared(grown, aligned, e));
    assert(settled.entries[e] == copy);
    assert(copy.with_history(None).parent == source.entries[e].parent);
    assert(copy.with_history(None).fields == source.entries[e].fields);
    assert(copy.with_history(None).times == source.entries[e].times);
    assert(copy.with_history(None).attachments.dom() == aligned.entries[e].with_history(None).attachments.dom());
}

/// A group that the destination deleted does not come back, unless the source changed it, or a
/// group within it, later.
pub proof fn group_deleted_here_stays_deleted(
    dest: DatabaseModel,
    source: DatabaseModel,
    now: NaiveDateTime,
    course: MergeCourse,
    after: DatabaseModel,
    g: GroupId,
)
    requires
        merged(dest, source, now, course, after),
        !dest.groups.contains_key(g),
        forall|x: GroupId| #[trigger] group_wanted(dest, source, x) ==> !within(source.tree(), x, g),
    ensures
        !after.groups.contains_key(g),
{
    lemma_arranged(dest, source, now, course, after);
    if group_created(dest, source, g) {
        lemma_created_in_source(dest, source, g);
    }
    assert(!arranged(source, now, course).groups.contains_key(g));
}

/// A group that only the source has is added, with the groups above it that are missing, unless
/// the destination deleted it for good.
pub proof fn wanted_group_is_added(
    dest: DatabaseModel,
    source: DatabaseModel,
    now: NaiveDateTime,
    course: MergeCourse,
    after: DatabaseModel,
    g: GroupId,
)
    requires
        merged(dest, source, now, course, after),
        group_wanted(dest, source, g),
    ensures
        after.groups.contains_key(g),
{
    lemma_arranged(dest, source, now, course, after);
    assert(ancestor(source.tree(), g, 0) == Some(g));
    assert(climbs(source.tree(), dest.groups.dom(), g, g, 0));
    assert(arranged(source, now, course).groups.contains_key(g));
    let none = EntryId { uuid: g.uuid };
    lemma_lasting_stays(dest, source, now, course, after, g, none);
}

/// A group that both databases have stays, even if the source deleted a group around it.
pub proof fn shared_group_stays(
    dest: DatabaseModel,
    source: DatabaseModel,
    now: NaiveDateTime,
    course: MergeCourse,
    after: DatabaseModel,
    g: GroupId,
)
    requires
        merged(dest, source, now, course, after),
        group_shared(dest.groups, source, g),
    ensures
        after.groups.contains_key(g),
{
    lemma_arranged(dest, source, now, course, after);
    assert(arranged(source, now, course).groups.contains_key(g));
    let none = EntryId { uuid: g.uuid };
    lemma_lasting_stays(dest, source, now, course, after, g, none);
}

/// A group that the source moved later stands where the source has it, if the destination has that
/// place, also where the source then deleted the group from which it was moved.
pub proof fn relocated_group_is_moved(
    dest: DatabaseModel,
    source: DatabaseModel,
    now: NaiveDateTime,
    course: MergeCourse,
    after: DatabaseModel,
    g: GroupId,
)
    requires
        merged(dest, source, now, course, after),
        group_shared(dest.groups, source, g),
        group_relocates(dest.groups[g], source.groups[g]),
        source.groups[g].parent is Some,
        dest.groups.contains_key(source.groups[g].parent->0),
    ensures
        after.groups.contains_key(g),
        after.groups[g].parent == source.groups[g].parent,
{
    lemma_adopted_alike(dest, source, course.translation, course.base);
    lemma_alike(course.base, source, course.imports, course.start);
    shared_group_stays(dest, source, now, course, after, g);
    let aligned = aligned_source(course.base, source, course.imports);
    let grown = enlarged(source, course);
    assert(source.groups.contains_key(g));
    assert(grown.groups[g] == retargeted_group(dest.groups[g], course.translation));
    assert(group_relocates(grown.groups[g], aligned.groups[g]));
    assert(arranged(source, now, course).groups[g].parent == source.groups[g].parent);
}

/// A group that was changed after the source deleted it stays, even if the source deleted the groups
/// around it too.
pub proof fn group_changed_after_its_deletion_stays(
    dest: DatabaseModel,
    source: DatabaseModel,
    now: NaiveDateTime,
    course: MergeCourse,
    after: DatabaseModel,
    g: GroupId,
)
    requires
        merged(dest, source, now, course, after),
        dest.groups.contains_key(g),
        source.deleted_objects.contains_key(g.uuid),
        spared(
            arranged(source, now, course).groups[g].times.spec_last_change(),
            source.deleted_objects[g.uuid],
        ),
    ensures
        after.groups.contains_key(g),
{
    let settled = arranged(source, now, course);
    lemma_arranged(dest, source, now, course, after);
    assert(settled.groups.contains_key(g));
    assert(ancestor(settled.tree(), g, 0) == Some(g));
    assert(decided_at(settled.tree(), source.deleted_objects, g, 0));
    let none = EntryId { uuid: g.uuid };
    lemma_lasting_stays(dest, source, now, course, after, g, none);
}

/// A group that lasts keeps the groups above it, even if the source deleted them.
pub proof fn lasting_group_keeps_the_groups_above(
    dest: DatabaseModel,
    source: DatabaseModel,
    now: NaiveDateTime,
    course: MergeCourse,
    after: DatabaseModel,
    g: GroupId,
    top: GroupId,
)
    requires
        merged(dest, source, now, course, after),
        arranged(source, now, course).groups.contains_key(g),
        group_lasts(arranged(source, now, course), aligned_source(course.base, source, course.imports), g),
        arranged(source, now, course).groups.contains_key(top),
        within(arranged(source, now, course).tree(), g, top),
    ensures
        after.groups.contains_key(g),
        after.groups.contains_key(top),
{
    let none = EntryId { uuid: g.uuid };
    lemma_arranged(dest, source, now, course, after);
    lemma_lasting_stays(dest, source, now, course, after, g, none);
    lemma_above_stays(dest, source, now, course, after, g, top);
}

/// The groups above one that stays do so too.
proof fn lemma_above_stays(
    dest: DatabaseModel,
    source: DatabaseModel,
    now: NaiveDateTime,
    course: MergeCourse,
    after: DatabaseModel,
    g: GroupId,
    top: GroupId,
)
    requires
        merged(dest, source, now, course, after),
        !removed_with_group(source, now, course, g),
        arranged(source, now, course).groups.contains_key(top),
        within(arranged(source, now, course).tree(), g, top),
    ensures
        after.groups.contains_key(top),
{
    let settled = arranged(source, now, course);
    let aligned = aligned_source(course.base, source, course.imports);
    lemma_arranged(dest, source, now, course, after);
    if removed_with_group(source, now, course, top) {
        let gone = choose|gone: GroupId|
            gone_groups(settled, aligned).contains(gone) && #[trigger] within(settled.tree(), top, gone);
        lemma_within_trans(settled.tree(), g, top, gone);
        assert(within_any(settled.tree(), g, gone_groups(settled, aligned)));
    }
}

/// An entry that only the destination has keeps the group in which it stands, if it was changed
/// after the source deleted that group and the source did not delete it too. The groups above stay
/// with it.
pub proof fn new_entry_keeps_its_groups(
    dest: DatabaseModel,
    source: DatabaseModel,
    now: NaiveDateTime,
    course: MergeCourse,
    after: DatabaseModel,
    e: EntryId,
)
    requires
        dest.wf(),
        merged(dest, source, now, course, after),
        dest.entries.contains_key(e),
        !source.entries.contains_key(e),
        !source.deleted_objects.contains_key(e.uuid),
        source.deleted_objects.contains_key(dest.entries[e].parent.uuid),
        spared(
            dest.entries[e].times.spec_last_change(),
            source.deleted_objects[dest.entries[e].parent.uuid],
        ),
    ensures
        after.groups.contains_key(dest.entries[e].parent),
        forall|top: GroupId| #[trigger]
            arranged(source, now, course).groups.contains_key(top) && within(
                arranged(source, now, course).tree(),
                dest.entries[e].parent,
                top,
            ) ==> after.groups.contains_key(top),
        after.entries.contains_key(e),
        after.entries[e] == retargeted_entry(dest.entries[e], course.translation),
{
    let settled = arranged(source, now, course);
    let parent = dest.entries[e].parent;
    lemma_arranged(dest, source, now, course, after);
    assert(!entry_removed(dest, source, e));
    assert(settled.entries.contains_key(e));
    assert(settled.entries[e] == retargeted_entry(dest.entries[e], course.translation));
    assert(dest.groups.contains_key(parent));
    assert(ancestor(settled.tree(), parent, 0) == Some(parent));
    assert(decided_at(settled.tree(), source.deleted_objects, parent, 0));
    lemma_lasting_stays(dest, source, now, course, after, parent, e);
    assert(!removed_with_group(source, now, course, parent));
    assert forall|top: GroupId| #[trigger] settled.groups.contains_key(top) && within(
        settled.tree(),
        parent,
        top,
    ) implies after.groups.contains_key(top) by {
        lemma_above_stays(dest, source, now, course, after, parent, top);
    }
}

/// A group that the source deleted, and in which nothing lasts, is removed with everything in it, and
/// its deletion is on record.
pub proof fn group_deleted_there_is_removed(
    dest: DatabaseModel,
    source: DatabaseModel,
    now: NaiveDateTime,
    course: MergeCourse,
    after: DatabaseModel,
    g: GroupId,
)
    requires
        merged(dest, source, now, course, after),
        group_gone(arranged(source, now, course), aligned_source(course.base, source, course.imports), g),
    ensures
        !after.groups.contains_key(g),
        forall|x: GroupId| #[trigger]
            after.groups.contains_key(x) ==> !within(arranged(source, now, course).tree(), x, g),
        after.deleted_objects.contains_key(g.uuid),
        after.deleted_objects[g.uuid] == source.deleted_objects[g.uuid],
{
    let settled = arranged(source, now, course);
    let tops = gone_groups(settled, aligned_source(course.base, source, course.imports));
    lemma_arranged(dest, source, now, course, after);
    assert(tops.contains(g));
    lemma_within_self(settled.tree(), g);
    assert forall|x: GroupId| #[trigger] after.groups.contains_key(x) implies !within(settled.tree(), x, g) by {
        if within(settled.tree(), x, g) {
            assert(within_any(settled.tree(), x, tops));
        }
    }
    assert(GroupId { uuid: g.uuid } == g);
}

/// What stays has the groups above it that it had.
proof fn lemma_above_alike(
    dest: DatabaseModel,
    source: DatabaseModel,
    now: NaiveDateTime,
    course: MergeCourse,
    after: DatabaseModel,
    g: GroupId,
    n: nat,
)
    requires
        merged(dest, source, now, course, after),
        !removed_with_group(source, now, course, g),
    ensures
        ancestor(after.tree(), g, n) == ancestor(arranged(source, now, course).tree(), g, n),
    decreases n,
{
    let settled = arranged(source, now, course);
    let tops = gone_groups(settled, aligned_source(course.base, source, course.imports));
    if n > 0 {
        lemma_above_alike(dest, source, now, course, after, g, (n - 1) as nat);
        lemma_arranged(dest, source, now, course, after);
        match ancestor(settled.tree(), g, (n - 1) as nat) {
            Some(a) => {
                assert(within(settled.tree(), g, a));
                if removed_with_group(source, now, course, a) {
                    let top = choose|top: GroupId| tops.contains(top) && #[trigger] within(settled.tree(), a, top);
                    lemma_within_trans(settled.tree(), g, a, top);
                    assert(within_any(settled.tree(), g, tops));
                }
                assert(settled.groups.contains_key(a) <==> after.groups.contains_key(a));
            },
            None => {},
        }
    }
}

/// What stays does not last after a merge, if it did not last before groups were removed.
proof fn lemma_outdates_alike(
    dest: DatabaseModel,
    source: DatabaseModel,
    now: NaiveDateTime,
    course: MergeCourse,
    after: DatabaseModel,
    g: GroupId,
    change: Option<NaiveDateTime>,
)
    requires
        merged(dest, source, now, course, after),
        !removed_with_group(source, now, course, g),
        outdates_deletion(arranged(source, now, course).tree(), source.deleted_objects, g, change),
    ensures
        outdates_deletion(after.tree(), source.deleted_objects, g, change),
{
    let t = arranged(source, now, course).tree();
    let u = after.tree();
    let deleted = source.deleted_objects;
    let n = choose|n: nat| #[trigger]
        decided_at(t, deleted, g, n) && spared(change, deleted[ancestor(t, g, n)->0.uuid]);
    lemma_above_alike(dest, source, now, course, after, g, n);
    assert forall|m: nat| m < n implies !deleted.contains_key((#[trigger] ancestor(u, g, m))->0.uuid) by {
        lemma_above_alike(dest, source, now, course, after, g, m);
        assert(!deleted.contains_key(ancestor(t, g, m)->0.uuid));
    }
    assert(decided_at(u, deleted, g, n));
}

/// A merge removes all groups that are to go: none is left that would be removed the next time.
pub proof fn no_group_is_left_to_remove(
    dest: DatabaseModel,
    source: DatabaseModel,
    now: NaiveDateTime,
    course: MergeCourse,
    after: DatabaseModel,
    g: GroupId,
)
    requires
        merged(dest, source, now, course, after),
    ensures
        !group_gone(after, source, g),
{
    let settled = arranged(source, now, course);
    let aligned = aligned_source(course.base, source, course.imports);
    let tops = gone_groups(settled, aligned);
    reveal(nothing_lasts);
    lemma_arranged(dest, source, now, course, after);
    if group_gone(after, source, g) {
        assert(settled.groups.contains_key(g) && !removed_with_group(source, now, course, g));
        assert forall|x: GroupId| #[trigger] settled.groups.contains_key(x) && within(settled.tree(), x, g) implies !group_lasts(
            settled,
            aligned,
            x,
        ) by {
            if removed_with_group(source, now, course, x) {
                let top = choose|top: GroupId| tops.contains(top) && #[trigger] within(settled.tree(), x, top);
                assert(group_gone(settled, aligned, top));
            } else if group_lasts(settled, aligned, x) {
                let n = choose|n: nat| ancestor(settled.tree(), x, n) == Some(g);
                lemma_above_alike(dest, source, now, course, after, x, n);
                assert(within(after.tree(), x, g));
                assert(after.groups.contains_key(x));
                assert(after.groups[x].times == settled.groups[x].times);
                if !source.groups.contains_key(x) {
                    lemma_outdates_alike(
                        dest,
                        source,
                        now,
                        course,
                        after,
                        x,
                        settled.groups[x].times.spec_last_change(),
                    );
                }
                assert(group_lasts(after, source, x));
            }
        }
        assert forall|e: EntryId| #[trigger] settled.entries.contains_key(e) && within(
            settled.tree(),
            settled.entries[e].parent,
            g,
        ) implies !entry_lasts(settled, aligned, e) by {
            let x = settled.entries[e].parent;
            if removed_with_group(source, now, course, x) {
                let top = choose|top: GroupId| tops.contains(top) && #[trigger] within(settled.tree(), x, top);
                assert(group_gone(settled, aligned, top));
            } else if entry_lasts(settled, aligned, e) {
                let n = choose|n: nat| ancestor(settled.tree(), x, n) == Some(g);
                lemma_above_alike(dest, source, now, course, after, x, n);
                assert(within(after.tree(), x, g));
                assert(after.entries.contains_key(e));
                assert(after.entries[e].times == settled.entries[e].times && after.entries[e].parent == x);
                if !source.entries.contains_key(e) && !source.deleted_objects.contains_key(e.uuid) {
                    lemma_outdates_alike(
                        dest,
                        source,
                        now,
                        course,
                        after,
                        x,
                        settled.entries[e].times.spec_last_change(),
                    );
                }
                assert(entry_lasts(after, source, e));
            }
        }
        assert(after.root == settled.root);
        assert(group_gone(settled, aligned, g));
        lemma_within_self(settled.tree(), g);
        assert(tops.contains(g));
        assert(within_any(settled.tree(), g, tops));
    }
}

/// A group of the destination stays, unless it is one that is removed or stands in one.
pub proof fn own_group_stays(
    dest: DatabaseModel,
    source: DatabaseModel,
    now: NaiveDateTime,
    course: MergeCourse,
    after: DatabaseModel,
    g: GroupId,
)
    requires
        merged(dest, source, now, course, after),
        dest.groups.contains_key(g),
        !removed_with_group(source, now, course, g),
    ensures
        after.groups.contains_key(g),
{
    lemma_arranged(dest, source, now, course, after);
    assert(arranged(source, now, course).groups.contains_key(g));
}

/// No deletion that is on record is forgotten.
pub proof fn deletions_stay_on_record(
    dest: DatabaseModel,
    source: DatabaseModel,
    now: NaiveDateTime,
    course: MergeCourse,
    after: DatabaseModel,
)
    requires
        merged(dest, source, now, course, after),
    ensures
        dest.deleted_objects.dom().subset_of(after.deleted_objects.dom()),
{
}

} // verus!

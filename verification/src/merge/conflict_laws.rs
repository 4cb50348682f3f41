//! Which merges are refused, and why.
use vstd::prelude::*;

use crate::datetime::NaiveDateTime;
use crate::db::database::{DatabaseModel, MoveGroupError};
use crate::db::entry::EntryModel;
use crate::db::group::GroupModel;
use crate::db::icon::Icon;
use crate::ids::{AttachmentId, EntryId, GroupId};
use crate::merge::arrivals::with_new_groups;
use crate::merge::attachments::{entry_uses, imported, lemma_import_uses, pool_grown};
use crate::merge::deletion_laws::{arranged, enlarged, lemma_arranged};
use crate::merge::entries::{entry_created, entry_shared, shared_conflict};
use crate::merge::field_laws::{
    entry_conflict_field_by_field, entry_holds, group_conflict_field_by_field, group_holds,
    groups_agree_field_by_field, ticks, ticks_or, time_goes_on,
};
use crate::merge::group_changes::{
    group_conflict, group_moves, group_shared, place_present, shared_group_conflict,
};
use crate::merge::groups::groups_merge_refused;
use crate::merge::icon_imports::{aligned_source, icons_aligned, lemma_adopted_alike, lemma_alike};
use crate::merge::icons::{icons_adopted, retargeted_entry, Translation};
use crate::merge::log::MergeError;
use crate::merge::{merge_refused, merged, MergeCourse};

verus! {

/// A version of an entry, or one of its archived versions, has an attachment.
pub open spec fn has_file(e: EntryModel, a: AttachmentId) -> bool {
    ||| e.attachments.contains_value(a)
    ||| e.history is Some && exists|i: int|
        0 <= i < e.history->0.len() && (#[trigger] e.history->0[i]).attachments.contains_value(a)
}

/// Where a merge succeeded, no two versions of an entry of the same moment differ: they agree in every
/// field, icons and identifiers of attachments aside, and they have attachments of the same names.
pub proof fn merged_entries_did_not_conflict(
    dest: DatabaseModel,
    source: DatabaseModel,
    now: NaiveDateTime,
    course: MergeCourse,
    after: DatabaseModel,
    e: EntryId,
)
    requires
        merged(dest, source, now, course, after),
        dest.entries.contains_key(e),
        source.entries.contains_key(e),
        ticks_or(dest.entries[e].times.last_modification, ticks(now)) == ticks_or(
            source.entries[e].times.last_modification,
            0,
        ),
    ensures
        entry_holds(dest.entries[e], source.entries[e]),
        dest.entries[e].attachments.dom() == source.entries[e].attachments.dom(),
        !(dest.entries[e].icon matches Some(Icon::Custom(_))) && !(source.entries[e].icon matches Some(
            Icon::Custom(_),
        )) ==> dest.entries[e].icon == source.entries[e].icon,
{
    let aligned = aligned_source(course.base, source, course.imports);
    let grown = enlarged(source, course);
    let copy = course.groups.entries.copies[e];
    lemma_adopted_alike(dest, source, course.translation, course.base);
    lemma_alike(course.base, source, course.imports, course.start);
    assert(course.base.entries.dom().contains(e) == dest.entries.dom().contains(e));
    assert(aligned.entries.contains_key(e));
    assert(entry_shared(grown, aligned, e));
    assert(grown.entries[e] == retargeted_entry(dest.entries[e], course.translation));
    assert(copy.with_history(None).fields == aligned.entries[e].with_history(None).fields);
    assert(copy.with_history(None).attachments.dom() == aligned.entries[e].with_history(None).attachments.dom());
    assert(copy.with_history(None).icon == aligned.entries[e].with_history(None).icon);
    assert(!shared_conflict(grown, aligned, copy, now, e));
    entry_conflict_field_by_field(grown.entries[e], copy, now);
}

/// Where a merge succeeded, no two versions of a group of the same moment differ in a field that counts,
/// icons aside, unless the group would have had to move.
pub proof fn merged_groups_did_not_conflict(
    dest: DatabaseModel,
    source: DatabaseModel,
    now: NaiveDateTime,
    course: MergeCourse,
    after: DatabaseModel,
    g: GroupId,
)
    requires
        merged(dest, source, now, course, after),
        dest.groups.contains_key(g),
        source.groups.contains_key(g),
        dest.groups[g].parent == source.groups[g].parent,
        ticks_or(dest.groups[g].times.last_modification, ticks(now)) == ticks_or(
            source.groups[g].times.last_modification,
            0,
        ),
    ensures
        group_holds(dest.groups[g], source.groups[g]),
        !(dest.groups[g].icon matches Some(Icon::Custom(_))) && !(source.groups[g].icon matches Some(
            Icon::Custom(_),
        )) ==> dest.groups[g].icon == source.groups[g].icon,
{
    let aligned = aligned_source(course.base, source, course.imports);
    let grown = enlarged(source, course);
    lemma_adopted_alike(dest, source, course.translation, course.base);
    lemma_alike(course.base, source, course.imports, course.start);
    assert(course.base.groups.dom().contains(g) == dest.groups.dom().contains(g));
    assert(aligned.groups.contains_key(g));
    assert(group_shared(grown.groups, aligned, g));
    assert(!shared_group_conflict(grown.groups, aligned, now, g));
    group_conflict_field_by_field(
        grown.groups[g],
        aligned.groups[g],
        place_present(grown.groups, aligned.groups[g]),
        now,
    );
}

/// A merge is refused because of an entry only if both databases have it, their versions are of the same
/// moment, and they are not the same: they differ in some field, or one of them has an icon of its own
/// or an attachment.
pub proof fn refused_entry_conflicts(dest: DatabaseModel, source: DatabaseModel, now: NaiveDateTime, e: EntryId)
    requires
        dest.wf(),
        source.wf(),
        merge_refused(dest, source, now, MergeError::EntryModificationTimeNotUpdated(e)),
    ensures
        dest.entries.contains_key(e),
        source.entries.contains_key(e),
        ticks_or(dest.entries[e].times.last_modification, ticks(now)) == ticks_or(
            source.entries[e].times.last_modification,
            0,
        ),
        ({
            let own = dest.entries[e];
            let theirs = source.entries[e];
            ||| !entry_holds(own, theirs)
            ||| own.icon != theirs.icon
            ||| own.icon matches Some(Icon::Custom(_))
            ||| own.attachments.dom() != theirs.attachments.dom()
            ||| exists|name: Seq<char>| own.attachments.contains_key(name)
        }),
{
    let error = MergeError::EntryModificationTimeNotUpdated(e);
    let (translation, base, imports, start) = choose|
        translation: Translation,
        base: DatabaseModel,
        imports: Translation,
        start: DatabaseModel,
    |
        {
            &&& #[trigger] icons_adopted(dest, source, translation, base)
            &&& #[trigger] icons_aligned(base, source, imports, start)
            &&& groups_merge_refused(start, aligned_source(base, source, imports), now, error)
        };
    let aligned = aligned_source(base, source, imports);
    let grown = with_new_groups(start, aligned);
    lemma_adopted_alike(dest, source, translation, base);
    lemma_alike(base, source, imports, start);
    assert(entry_shared(grown, aligned, e));
    assert(base.entries.dom().contains(e) == dest.entries.dom().contains(e));
    let (copy, there) = choose|copy: EntryModel, there: DatabaseModel|
        {
            &&& #[trigger] imported(aligned.entries[e], copy, aligned.attachments, there.attachments)
            &&& pool_grown(grown.attachments, there.attachments, aligned.attachments)
            &&& shared_conflict(grown, aligned, copy, now, e)
        };
    let own = dest.entries[e];
    let theirs = source.entries[e];
    assert(grown.entries[e] == retargeted_entry(own, translation));
    assert(copy.with_history(None).fields == aligned.entries[e].with_history(None).fields);
    assert(copy.with_history(None).attachments.dom() == aligned.entries[e].with_history(None).attachments.dom());
    assert(copy.with_history(None).icon == aligned.entries[e].with_history(None).icon);
    assert(copy.with_history(None).id == aligned.entries[e].with_history(None).id);
    entry_conflict_field_by_field(grown.entries[e], copy, now);
    assert(own.id == e && theirs.id == e);
    if entry_holds(own, theirs) && own.icon == theirs.icon && !(own.icon matches Some(Icon::Custom(_)))
        && own.attachments.dom() == theirs.attachments.dom() && !(exists|name: Seq<char>|
        own.attachments.contains_key(name)) {
        assert forall|name: Seq<char>| !own.attachments.dom().contains(name) by {
            assert(!own.attachments.contains_key(name));
        }
        assert(own.attachments =~= copy.attachments);
    }
}

/// A merge is refused because of an attachment only if the source does not have it and some version of an
/// entry of the source does.
pub proof fn refused_attachment_is_missing(
    dest: DatabaseModel,
    source: DatabaseModel,
    now: NaiveDateTime,
    a: AttachmentId,
)
    requires
        merge_refused(dest, source, now, MergeError::AttachmentNotFound(a)),
    ensures
        !source.attachments.contains_key(a),
        exists|e: EntryId| #[trigger] source.entries.contains_key(e) && has_file(source.entries[e], a),
{
    let error = MergeError::AttachmentNotFound(a);
    let (translation, base, imports, start) = choose|
        translation: Translation,
        base: DatabaseModel,
        imports: Translation,
        start: DatabaseModel,
    |
        {
            &&& #[trigger] icons_adopted(dest, source, translation, base)
            &&& #[trigger] icons_aligned(base, source, imports, start)
            &&& groups_merge_refused(start, aligned_source(base, source, imports), now, error)
        };
    let aligned = aligned_source(base, source, imports);
    let grown = with_new_groups(start, aligned);
    lemma_alike(base, source, imports, start);
    let e = choose|e: EntryId|
        (entry_created(grown, aligned, e) || entry_shared(grown, aligned, e)) && #[trigger] entry_uses(
            aligned.entries[e],
            a,
        );
    assert(source.entries.contains_key(e));
    let shown = aligned.entries[e];
    if !shown.attachments.contains_value(a) {
        let i = choose|i: int|
            0 <= i < shown.history->0.len() && (#[trigger] shown.history->0[i]).attachments.contains_value(a);
        assert(source.entries[e].history->0[i].attachments.contains_value(a));
    }
    assert(has_file(source.entries[e], a));
}

/// Where a merge succeeded, every attachment of an entry that was taken over or compared is in the
/// source.
pub proof fn merged_entries_had_their_files(
    dest: DatabaseModel,
    source: DatabaseModel,
    now: NaiveDateTime,
    course: MergeCourse,
    after: DatabaseModel,
    e: EntryId,
    a: AttachmentId,
)
    requires
        merged(dest, source, now, course, after),
        source.entries.contains_key(e),
        after.entries.contains_key(e),
        has_file(source.entries[e], a),
    ensures
        source.attachments.contains_key(a),
{
    let aligned = aligned_source(course.base, source, course.imports);
    let grown = enlarged(source, course);
    lemma_adopted_alike(dest, source, course.translation, course.base);
    lemma_alike(course.base, source, course.imports, course.start);
    lemma_arranged(dest, source, now, course, after);
    assert(course.base.entries.dom().contains(e) == dest.entries.dom().contains(e));
    assert(aligned.entries.contains_key(e));
    assert(arranged(source, now, course).entries.contains_key(e));
    assert(entry_shared(grown, aligned, e) || entry_created(grown, aligned, e));
    assert(imported(
        aligned.entries[e],
        course.groups.entries.copies[e],
        source.attachments,
        course.groups.middle.attachments,
    ));
    lemma_import_uses(
        aligned.entries[e],
        course.groups.entries.copies[e],
        source.attachments,
        course.groups.middle.attachments,
    );
    let theirs = source.entries[e];
    if !theirs.attachments.contains_value(a) {
        let i = choose|i: int|
            0 <= i < theirs.history->0.len() && (#[trigger] theirs.history->0[i]).attachments.contains_value(a);
        assert(aligned.entries[e].history->0[i].attachments.contains_value(a));
    }
    assert(entry_uses(aligned.entries[e], a));
}

/// A merge is refused because of a group only if both databases have it, or it is added, its versions
/// are of the same moment, and they differ in some field that counts.
pub proof fn refused_group_conflicts(dest: DatabaseModel, source: DatabaseModel, now: NaiveDateTime, g: GroupId)
    requires
        dest.wf(),
        source.wf(),
        merge_refused(dest, source, now, MergeError::GroupModificationTimeNotUpdated(g)),
    ensures
        dest.groups.contains_key(g),
        source.groups.contains_key(g),
        ticks_or(dest.groups[g].times.last_modification, ticks(now)) == ticks_or(
            source.groups[g].times.last_modification,
            0,
        ),
        !group_holds(dest.groups[g], source.groups[g]) || dest.groups[g].icon != source.groups[g].icon
            || dest.groups[g].icon matches Some(Icon::Custom(_)),
{
    let error = MergeError::GroupModificationTimeNotUpdated(g);
    let (translation, base, imports, start) = choose|
        translation: Translation,
        base: DatabaseModel,
        imports: Translation,
        start: DatabaseModel,
    |
        {
            &&& #[trigger] icons_adopted(dest, source, translation, base)
            &&& #[trigger] icons_aligned(base, source, imports, start)
            &&& groups_merge_refused(start, aligned_source(base, source, imports), now, error)
        };
    let aligned = aligned_source(base, source, imports);
    let grown = with_new_groups(start, aligned);
    lemma_adopted_alike(dest, source, translation, base);
    lemma_alike(base, source, imports, start);
    assert(base.groups.dom().contains(g) == dest.groups.dom().contains(g));
    assert(shared_group_conflict(grown.groups, aligned, now, g));
    let d = grown.groups[g];
    let s = aligned.groups[g];
    lemma_group_conflict(d, s, place_present(grown.groups, s), now);
    if !dest.groups.contains_key(g) {
        assert(d == s);
    }
    assert(source.groups[g].id == g);
}

/// What a conflict of groups means, wherever they stand.
proof fn lemma_group_conflict(
    d: GroupModel,
    s: GroupModel,
    target: bool,
    now: NaiveDateTime,
)
    requires
        group_conflict(d, s, target, now),
    ensures
        ticks_or(d.times.last_modification, ticks(now)) == ticks_or(s.times.last_modification, 0),
        !(group_holds(d, s) && d.id == s.id && d.icon == s.icon),
{
    let epoch = NaiveDateTime::spec_epoch();
    time_goes_on(epoch, epoch);
    groups_agree_field_by_field(d, s);
}

/// A merge is refused because the root was to be moved only if the source moved it later, into a group
/// that the destination has or gets.
pub proof fn refused_root_was_moved(dest: DatabaseModel, source: DatabaseModel, now: NaiveDateTime)
    requires
        dest.wf(),
        source.wf(),
        merge_refused(dest, source, now, MergeError::MoveGroupError(MoveGroupError::RootGroup)),
    ensures
        source.groups.contains_key(dest.root),
        source.groups[dest.root].parent is Some,
        source.groups[dest.root].times.location_changed is Some,
        dest.groups[dest.root].times.location_changed is Some,
        ticks(source.groups[dest.root].times.location_changed->0) > ticks(
            dest.groups[dest.root].times.location_changed->0,
        ),
{
    let error = MergeError::MoveGroupError(MoveGroupError::RootGroup);
    let (translation, base, imports, start) = choose|
        translation: Translation,
        base: DatabaseModel,
        imports: Translation,
        start: DatabaseModel,
    |
        {
            &&& #[trigger] icons_adopted(dest, source, translation, base)
            &&& #[trigger] icons_aligned(base, source, imports, start)
            &&& groups_merge_refused(start, aligned_source(base, source, imports), now, error)
        };
    let aligned = aligned_source(base, source, imports);
    let grown = with_new_groups(start, aligned);
    let g = dest.root;
    lemma_adopted_alike(dest, source, translation, base);
    lemma_alike(base, source, imports, start);
    assert(dest.tree().contains_key(g));
    assert(base.groups.dom().contains(g) == dest.groups.dom().contains(g));
    assert(group_moves(grown.groups, aligned, g));
    time_goes_on(
        source.groups[g].times.location_changed->0,
        dest.groups[g].times.location_changed->0,
    );
}

} // verus!

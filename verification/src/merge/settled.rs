//! When a merge has nothing to do.
use vstd::prelude::*;

use crate::datetime::{lemma_time_total, NaiveDateTime};
use crate::db::database::{lemma_without_no_groups, DatabaseModel};
use crate::db::entry::EntryModel;
use crate::db::group::GroupModel;
use crate::ids::{AttachmentId, CustomIconId, EntryId, GroupId};
use crate::merge::arrivals::{
    climbs, group_created, group_creation_notes, group_wanted, with_new_groups,
};
use crate::merge::attachments::{
    entry_uses, imported, imported_version, indexed_attachments, lemma_stands_grown, new_are_free,
    pool_grown, stands_for, unused, Pool,
};
use crate::merge::departures::{
    deletions_with_groups, gone_groups, group_gone, group_removal_notes, lemma_gone_alike,
    lemma_kept_by_source,
};
use crate::merge::entries::{
    creation_notes, deletions_with_entries, entries_merged, entries_notes, entries_refused,
    entry_conflict, entry_created, entry_removed, entry_shared, entry_wanted, merged_entries,
    reconciled_entry, reconciling_notes, removal_notes, shared_conflict, shared_notes,
    staying_entries, EntriesCourse,
};
use crate::merge::group_changes::{
    group_moves, group_shared, merged_group, merged_groups, shared_group_conflict,
    shared_group_notes,
};
use crate::merge::groups::{
    groups_merge_refused, groups_merged, groups_notes, reduced, settled_groups, GroupsCourse,
};
use crate::merge::icon_imports::{
    aligned_source, brought_as, icons_aligned, imported_icon, lemma_alike,
};
use crate::merge::icons::{
    icon_missing, icon_referenced, icons_adopted, indexed_icons, lemma_nothing_to_adopt,
    retargeted_entry, retargeted_group, retargeted_version, Translation,
};
use crate::merge::log::{
    group_log, lemma_collected_uneventful, uneventful, LogModel, MergeError, MergeEvent,
};
use crate::merge::references::{refers_at, version_at, Place, Reference};
use crate::merge::{merge_notes, merge_refused, mergeable, merged, tidied, MergeCourse};

verus! {

broadcast use group_log;

/// A version of an entry is brought in the same as the table of attachments grows.
pub proof fn lemma_version_unique(
    from: EntryModel,
    a: EntryModel,
    b: EntryModel,
    source: Pool,
    small: Pool,
    large: Pool,
)
    requires
        imported_version(from, a, source, small),
        imported_version(from, b, source, large),
        pool_grown(small, large, source),
    ensures
        a == b,
{
    assert forall|name: Seq<char>| from.attachments.contains_key(name) implies a.attachments[name]
        == b.attachments[name] by {
        lemma_stands_grown(small, large, source);
        let data = source[from.attachments[name]].data;
        assert(stands_for(small, from.attachments[name], data, a.attachments[name]));
        assert(stands_for(large, from.attachments[name], data, b.attachments[name]));
    }
    assert(a.attachments.dom() == from.attachments.dom());
    assert(b.attachments.dom() == from.attachments.dom());
    assert forall|name: Seq<char>| a.attachments.contains_key(name) == from.attachments.contains_key(name) by {
        assert(a.attachments.dom().contains(name) == from.attachments.dom().contains(name));
    }
    assert forall|name: Seq<char>| b.attachments.contains_key(name) == from.attachments.contains_key(name) by {
        assert(b.attachments.dom().contains(name) == from.attachments.dom().contains(name));
    }
    assert(a.attachments =~= b.attachments);
}

/// An entry is brought in the same as the table of attachments grows.
pub proof fn lemma_import_unique(
    from: EntryModel,
    a: EntryModel,
    b: EntryModel,
    source: Pool,
    small: Pool,
    large: Pool,
)
    requires
        imported(from, a, source, small),
        imported(from, b, source, large),
        pool_grown(small, large, source),
    ensures
        a == b,
{
    lemma_version_unique(
        from.with_history(None),
        a.with_history(None),
        b.with_history(None),
        source,
        small,
        large,
    );
    if from.history is Some {
        assert forall|i: int| 0 <= i < from.history->0.len() implies a.history->0[i] == b.history->0[i] by {
            assert(imported_version(from.history->0[i], a.history->0[i], source, small));
            assert(imported_version(from.history->0[i], b.history->0[i], source, large));
            lemma_version_unique(
                from.history->0[i],
                a.history->0[i],
                b.history->0[i],
                source,
                small,
                large,
            );
        }
        assert(a.history->0 =~= b.history->0);
    }
    assert(a == a.with_history(None).with_history(a.history));
    assert(b == b.with_history(None).with_history(b.history));
}

/// Merging a copy of the source's entry into the destination's changes nothing.
pub open spec fn entry_at_rest(
    dest: EntryModel,
    copy: EntryModel,
    target_present: bool,
    now: NaiveDateTime,
    quiet: bool,
) -> bool {
    &&& !entry_conflict(dest, copy, now)
    &&& reconciled_entry(dest, copy, target_present, now) == dest
    &&& uneventful(reconciling_notes(dest, copy, target_present, now), quiet)
}

/// The source has the attachments of its entry, and under whatever identifiers the destination
/// keeps them, there is nothing to merge in the entry.
pub open spec fn entry_settled(
    dest: DatabaseModel,
    source: DatabaseModel,
    now: NaiveDateTime,
    quiet: bool,
    e: EntryId,
) -> bool {
    &&& forall|a: AttachmentId| #[trigger]
        entry_uses(source.entries[e], a) ==> source.attachments.contains_key(a)
    &&& forall|pool: Pool, copy: EntryModel|
        pool_grown(dest.attachments, pool, source.attachments) && #[trigger] imported(
            source.entries[e],
            copy,
            source.attachments,
            pool,
        ) ==> entry_at_rest(
            dest.entries[e],
            copy,
            dest.groups.contains_key(source.entries[e].parent),
            now,
            quiet,
        )
}

/// There is nothing to merge in a group.
pub open spec fn group_settled(
    dest: DatabaseModel,
    source: DatabaseModel,
    now: NaiveDateTime,
    quiet: bool,
    g: GroupId,
) -> bool {
    &&& !shared_group_conflict(dest.groups, source, now, g)
    &&& merged_group(dest.groups, source, now, g) == dest.groups[g]
    &&& uneventful(shared_group_notes(dest.groups, source, now, g), quiet)
}

/// Every attachment to which an entry refers is there.
pub open spec fn attachments_resolve(db: DatabaseModel) -> bool {
    forall|e: EntryId, a: AttachmentId| #[trigger]
        db.entries.contains_key(e) && #[trigger] entry_uses(db.entries[e], a) ==> db.attachments.contains_key(a)
}

/// The source, under the identifiers that the destination has for its icons, has nothing for the
/// destination: nothing to add, nothing to remove, nothing to change and, where quiet is asked for,
/// nothing to warn of.
pub open spec fn is_resting(dest: DatabaseModel, source: DatabaseModel, now: NaiveDateTime, quiet: bool) -> bool {
    &&& forall|g: GroupId| !#[trigger] group_wanted(dest, source, g)
    &&& forall|g: GroupId| !#[trigger] group_gone(dest, source, g)
    &&& forall|e: EntryId| !#[trigger] entry_created(dest, source, e)
    &&& quiet ==> forall|e: EntryId| !#[trigger] entry_wanted(dest, source, e)
    &&& forall|e: EntryId| !#[trigger] entry_removed(dest, source, e)
    &&& forall|e: EntryId| #[trigger] entry_shared(dest, source, e) ==> entry_settled(dest, source, now, quiet, e)
    &&& forall|g: GroupId| #[trigger] group_shared(dest.groups, source, g) ==> group_settled(
        dest,
        source,
        now,
        quiet,
        g,
    )
}

/// The source has nothing for the destination, whatever stands in the destination for its icons.
/// And the destination is tidy: it has what it refers to and nothing else.
pub open spec fn nothing_to_merge(
    dest: DatabaseModel,
    source: DatabaseModel,
    now: NaiveDateTime,
    quiet: bool,
) -> bool {
    &&& dest.wf()
    &&& source.wf()
    &&& forall|imports: Translation, start: DatabaseModel| #[trigger]
        icons_aligned(dest, source, imports, start) ==> is_resting(
            start,
            aligned_source(dest, source, imports),
            now,
            quiet,
        )
    &&& tidied(dest) == dest
    &&& forall|i: CustomIconId| !#[trigger] icon_missing(dest, i)
    &&& !group_created(dest, source, source.root)
}

/// Where no group is wanted, the table of groups stays.
proof fn lemma_nothing_added(dest: DatabaseModel, source: DatabaseModel, now: NaiveDateTime, quiet: bool)
    requires
        is_resting(dest, source, now, quiet),
    ensures
        with_new_groups(dest, source) == dest,
        forall|g: GroupId| !group_created(dest, source, g),
{
    assert forall|g: GroupId| !group_created(dest, source, g) by {}
    assert(with_new_groups(dest, source).groups =~= dest.groups);
}

/// Where no group is to go, a database stays as it is.
proof fn lemma_nothing_removed(
    dest: DatabaseModel,
    source: DatabaseModel,
    now: NaiveDateTime,
    quiet: bool,
    settled: DatabaseModel,
)
    requires
        is_resting(dest, source, now, quiet),
        settled == (DatabaseModel { attachments: settled.attachments, ..dest }),
    ensures
        forall|g: GroupId| !#[trigger] group_gone(settled, source, g),
        reduced(settled, source) == settled,
{
    lemma_nothing_added(dest, source, now, quiet);
    assert(settled.tree() == dest.tree());
    assert forall|g: GroupId| !#[trigger] group_gone(settled, source, g) by {
        assert(!group_gone(dest, source, g));
        lemma_gone_alike(dest, source, settled, source, g);
    }
    assert(deletions_with_groups(settled, source) =~= settled.deleted_objects);
    assert(gone_groups(settled, source) =~= Set::<GroupId>::empty());
    lemma_without_no_groups(settled);
}

/// Merging the entries changes nothing.
proof fn lemma_entries_at_rest(
    dest: DatabaseModel,
    source: DatabaseModel,
    now: NaiveDateTime,
    quiet: bool,
    course: EntriesCourse,
    after: DatabaseModel,
)
    requires
        is_resting(dest, source, now, quiet),
        entries_merged(dest, source, now, course, after),
    ensures
        after == (DatabaseModel { attachments: after.attachments, ..dest }),
        pool_grown(dest.attachments, after.attachments, source.attachments),
        new_are_free(dest.entries, dest.attachments, after.attachments),
        uneventful(entries_notes(dest, source, now, course), quiet),
{
    let copies = course.copies;
    assert forall|e: EntryId| #[trigger] entry_shared(dest, source, e) implies entry_at_rest(
        dest.entries[e],
        copies[e],
        dest.groups.contains_key(source.entries[e].parent),
        now,
        quiet,
    ) by {
        assert(source.entries.contains_key(e));
        assert(entry_settled(dest, source, now, quiet, e));
        assert(imported(source.entries[e], copies[e], source.attachments, after.attachments));
    }
    assert(merged_entries(dest, source, copies, now) =~= dest.entries) by {
        assert forall|e: EntryId| dest.entries.contains_key(e) implies !entry_removed(dest, source, e) by {}
    }
    assert(deletions_with_entries(dest, source) =~= dest.deleted_objects);
    assert(staying_entries(dest, source) =~= dest.entries) by {
        assert forall|e: EntryId| dest.entries.contains_key(e) implies !entry_removed(dest, source, e) by {}
    }
    let created = |e: EntryId| creation_notes(dest, source, e);
    let removed = |e: EntryId| removal_notes(dest, source, e);
    let shared = |e: EntryId| shared_notes(dest, source, course.copies[e], now, e);
    assert forall|i: int| 0 <= i < course.source_walk.len() implies uneventful(
        created(#[trigger] course.source_walk[i]),
        quiet,
    ) by {
        assert(!entry_created(dest, source, course.source_walk[i]));
    }
    assert forall|i: int| 0 <= i < course.dest_walk.len() implies uneventful(
        removed(#[trigger] course.dest_walk[i]),
        quiet,
    ) by {
        assert(!entry_removed(dest, source, course.dest_walk[i]));
    }
    assert forall|i: int| 0 <= i < course.dest_walk.len() implies uneventful(
        shared(#[trigger] course.dest_walk[i]),
        quiet,
    ) by {
        let e = course.dest_walk[i];
        if entry_shared(dest, source, e) {
            assert(entry_at_rest(
                dest.entries[e],
                copies[e],
                dest.groups.contains_key(source.entries[e].parent),
                now,
                quiet,
            ));
        }
    }
    lemma_collected_uneventful(course.source_walk, created, quiet);
    lemma_collected_uneventful(course.dest_walk, removed, quiet);
    lemma_collected_uneventful(course.dest_walk, shared, quiet);
}

/// Merging the groups changes nothing.
proof fn lemma_groups_at_rest(
    dest: DatabaseModel,
    source: DatabaseModel,
    now: NaiveDateTime,
    quiet: bool,
    course: GroupsCourse,
    after: DatabaseModel,
)
    requires
        is_resting(dest, source, now, quiet),
        groups_merged(dest, source, now, course, after),
    ensures
        after == (DatabaseModel { attachments: after.attachments, ..dest }),
        pool_grown(dest.attachments, after.attachments, source.attachments),
        new_are_free(dest.entries, dest.attachments, after.attachments),
        uneventful(groups_notes(dest, source, now, course), quiet),
{
    lemma_nothing_added(dest, source, now, quiet);
    lemma_entries_at_rest(dest, source, now, quiet, course.entries, course.middle);
    lemma_groups_same(dest, source, now, quiet);
    let settled = settled_groups(course.middle, source, now);
    assert(settled == course.middle);
    lemma_nothing_removed(dest, source, now, quiet, settled);
    let created = |g: GroupId| group_creation_notes(g);
    let removed = |g: GroupId| group_removal_notes(settled, source, g);
    let shared = |g: GroupId| shared_group_notes(dest.groups, source, now, g);
    assert(course.created.len() == 0) by {
        if course.created.len() > 0 {
            assert(course.created.contains(course.created[0]));
            assert(group_created(dest, source, course.created[0]));
            let (from, n) = choose|from: GroupId, n: nat|
                group_wanted(dest, source, from) && #[trigger] climbs(
                    source.tree(),
                    dest.groups.dom(),
                    from,
                    course.created[0],
                    n,
                );
            assert(group_wanted(dest, source, from));
        }
    }
    assert forall|i: int| 0 <= i < course.deleted.len() implies uneventful(
        removed(#[trigger] course.deleted[i]),
        quiet,
    ) by {
        assert(!group_gone(settled, source, course.deleted[i]));
    }
    assert forall|i: int| 0 <= i < course.reconciled.len() implies uneventful(
        shared(#[trigger] course.reconciled[i]),
        quiet,
    ) by {
        let g = course.reconciled[i];
        if group_shared(dest.groups, source, g) {
            assert(group_settled(dest, source, now, quiet, g));
        }
    }
    lemma_collected_uneventful(course.created, created, quiet);
    lemma_collected_uneventful(course.deleted, removed, quiet);
    lemma_collected_uneventful(course.reconciled, shared, quiet);
}

/// The groups stay as they are.
proof fn lemma_groups_same(dest: DatabaseModel, source: DatabaseModel, now: NaiveDateTime, quiet: bool)
    requires
        is_resting(dest, source, now, quiet),
    ensures
        merged_groups(dest.groups, source, now) == dest.groups,
{
    assert forall|g: GroupId| dest.groups.contains_key(g) implies merged_group(dest.groups, source, now, g)
        == dest.groups[g] by {
        if source.groups.contains_key(g) {
            assert(group_shared(dest.groups, source, g));
        }
    }
    assert(merged_groups(dest.groups, source, now) =~= dest.groups);
}

/// Where there is nothing to merge, a merge changes nothing and reports no event; where there is
/// nothing to warn of either, it reports nothing at all.
pub proof fn merging_nothing_changes_nothing(
    dest: DatabaseModel,
    source: DatabaseModel,
    now: NaiveDateTime,
    quiet: bool,
    course: MergeCourse,
    after: DatabaseModel,
)
    requires
        nothing_to_merge(dest, source, now, quiet),
        merged(dest, source, now, course, after),
    ensures
        after == dest,
        uneventful(merge_notes(source, now, course), quiet),
{
    let aligned = aligned_source(dest, source, course.imports);
    let start = course.start;
    lemma_nothing_to_adopt(dest, source, course.translation, course.base);
    assert(is_resting(start, aligned, now, quiet));
    lemma_groups_at_rest(start, aligned, now, quiet, course.groups, course.settled);
    let grown = course.settled;
    assert forall|i: CustomIconId| icon_referenced(grown, i) == icon_referenced(dest, i) by {}
    let plain = DatabaseModel { custom_icons: dest.custom_icons, ..grown };
    lemma_same_index(dest, plain);
    assert(indexed_attachments(grown) =~= indexed_attachments(plain));
    assert forall|i: CustomIconId| start.custom_icons.contains_key(i) && icon_referenced(dest, i) implies dest.custom_icons.contains_key(
        i,
    ) by {
        assert(!icon_missing(dest, i));
    }
    assert(indexed_icons(grown) =~= indexed_icons(dest));
}

/// Attachments to which nothing refers are dropped again.
proof fn lemma_same_index(dest: DatabaseModel, grown: DatabaseModel)
    requires
        grown == (DatabaseModel { attachments: grown.attachments, ..dest }),
        forall|a: AttachmentId| #[trigger]
            dest.attachments.contains_key(a) ==> grown.attachments.contains_key(a) && grown.attachments[a]
                == dest.attachments[a],
        new_are_free(dest.entries, dest.attachments, grown.attachments),
    ensures
        indexed_attachments(grown) == indexed_attachments(dest),
{
    reveal(new_are_free);
    assert forall|a: AttachmentId, place: Place|
        refers_at(dest.entries, place, Reference::Attachment(a)) && grown.attachments.contains_key(
            a,
        ) implies dest.attachments.contains_key(a) by {
        lemma_reference_is_use(dest.entries, place, a);
        if !dest.attachments.contains_key(a) {
            assert(unused(dest.entries, a));
        }
    }
    assert(indexed_attachments(grown) =~= indexed_attachments(dest));
}

/// An entry in which a version refers to an attachment uses it.
pub proof fn lemma_reference_is_use(entries: Map<EntryId, EntryModel>, place: Place, a: AttachmentId)
    requires
        refers_at(entries, place, Reference::Attachment(a)),
    ensures
        entries.contains_key(place.0),
        entry_uses(entries[place.0], a),
{
    let entry = entries[place.0];
    let version = version_at(entry, place.1)->0;
    let name = choose|name: Seq<char>| #[trigger]
        version.attachments.contains_key(name) && version.attachments[name] == a;
    assert(version.attachments.contains_value(a));
    match place.1 {
        Some(i) => {
            assert(entry.history->0[i as int].attachments.contains_value(a));
        },
        None => {},
    }
}

/// Where there is nothing to merge, groups and entries can be merged.
proof fn lemma_resting_is_not_refused(
    dest: DatabaseModel,
    source: DatabaseModel,
    now: NaiveDateTime,
    quiet: bool,
    error: MergeError,
)
    requires
        dest.wf(),
        is_resting(dest, source, now, quiet),
    ensures
        !groups_merge_refused(dest, source, now, error),
{
    lemma_nothing_added(dest, source, now, quiet);
    lemma_groups_same(dest, source, now, quiet);
    if entries_refused(dest, source, now, error) {
        match error {
            MergeError::AttachmentNotFound(a) => {
                let e = choose|e: EntryId|
                    (entry_shared(dest, source, e) || entry_created(dest, source, e)) && #[trigger] entry_uses(
                        source.entries[e],
                        a,
                    );
                assert(!entry_created(dest, source, e));
                assert(entry_settled(dest, source, now, quiet, e));
            },
            MergeError::EntryModificationTimeNotUpdated(e) => {
                let (copy, after) = choose|copy: EntryModel, after: DatabaseModel|
                    {
                        &&& #[trigger] imported(source.entries[e], copy, source.attachments, after.attachments)
                        &&& pool_grown(dest.attachments, after.attachments, source.attachments)
                        &&& shared_conflict(dest, source, copy, now, e)
                    };
                assert(entry_settled(dest, source, now, quiet, e));
                assert(entry_at_rest(
                    dest.entries[e],
                    copy,
                    dest.groups.contains_key(source.entries[e].parent),
                    now,
                    quiet,
                ));
            },
            _ => {},
        }
    }
    if group_moves(dest.groups, source, dest.root) {
        assert(group_shared(dest.groups, source, dest.root));
        assert(group_settled(dest, source, now, quiet, dest.root));
    }
    match error {
        MergeError::GroupModificationTimeNotUpdated(g) => {
            if shared_group_conflict(dest.groups, source, now, g) {
                assert(group_shared(dest.groups, source, g));
                assert(group_settled(dest, source, now, quiet, g));
            }
        },
        _ => {},
    }
}

/// Where there is nothing to merge, a merge succeeds.
pub proof fn merging_nothing_is_not_refused(
    dest: DatabaseModel,
    source: DatabaseModel,
    now: NaiveDateTime,
    quiet: bool,
    error: MergeError,
)
    requires
        nothing_to_merge(dest, source, now, quiet),
    ensures
        mergeable(dest, source),
        !merge_refused(dest, source, now, error),
{
    if merge_refused(dest, source, now, error) {
        let (translation, base, imports, start) = choose|
            translation: Translation,
            base: DatabaseModel,
            imports: Translation,
            start: DatabaseModel,
        |
            {
                &&& #[trigger] icons_adopted(dest, source, translation, base)
                &&& #[trigger] icons_aligned(base, source, imports, start)
                &&& groups_merge_refused(start, aligned_source(base, source, imports), now, error)
            };
        lemma_nothing_to_adopt(dest, source, translation, base);
        lemma_alike(dest, source, imports, start);
        lemma_resting_is_not_refused(start, aligned_source(dest, source, imports), now, quiet, error);
    }
}

/// A database that can be merged with itself: every object has a modification time, every
/// attachment and every custom icon that is referred to is there, and the index of references is
/// right.
pub open spec fn tidy(db: DatabaseModel) -> bool {
    &&& db.wf()
    &&& forall|g: GroupId| #[trigger] db.groups.contains_key(g) ==> db.groups[g].times.last_modification is Some
    &&& forall|e: EntryId| #[trigger] db.entries.contains_key(e) ==> db.entries[e].times.last_modification is Some
    &&& attachments_resolve(db)
    &&& forall|i: CustomIconId| !#[trigger] icon_missing(db, i)
    &&& tidied(db) == db
}

/// An entry whose attachments are there is its own copy.
proof fn lemma_import_self(e: EntryModel, pool: Pool)
    requires
        forall|a: AttachmentId| #[trigger] entry_uses(e, a) ==> pool.contains_key(a),
    ensures
        imported(e, e, pool, pool),
{
    assert forall|name: Seq<char>| #[trigger] e.attachments.contains_key(name) implies pool.contains_key(
        e.attachments[name],
    ) by {
        assert(e.attachments.contains_value(e.attachments[name]));
        assert(entry_uses(e, e.attachments[name]));
    }
    if e.history is Some {
        assert forall|i: int| 0 <= i < e.history->0.len() implies #[trigger] imported_version(
            e.history->0[i],
            e.history->0[i],
            pool,
            pool,
        ) by {
            let v = e.history->0[i];
            assert forall|name: Seq<char>| #[trigger] v.attachments.contains_key(name) implies pool.contains_key(
                v.attachments[name],
            ) by {
                assert(e.history->0[i].attachments.contains_value(v.attachments[name]));
                assert(entry_uses(e, v.attachments[name]));
            }
        }
    }
}

/// Nothing changes where every icon stands for itself.
pub proof fn lemma_same_icons(e: EntryModel, g: GroupModel, translation: Translation)
    requires
        forall|i: CustomIconId| #[trigger] translation.contains_key(i) ==> translation[i] == Some(i),
    ensures
        retargeted_entry(e, translation) == e,
        retargeted_group(g, translation) == g,
{
    if e.history is Some {
        assert(e.history->0.map_values(|v: EntryModel| retargeted_version(v, translation)) =~= e.history->0);
    }
}

/// A database has its own icons.
proof fn lemma_aligned_with_itself(db: DatabaseModel, imports: Translation, start: DatabaseModel)
    requires
        forall|i: CustomIconId| !#[trigger] icon_missing(db, i),
        icons_aligned(db, db, imports, start),
    ensures
        start == db,
        aligned_source(db, db, imports) == db,
{
    let icons = db.custom_icons;
    assert forall|i: CustomIconId| #[trigger] imports.contains_key(i) implies imports[i] == Some(i) by {
        assert(!icon_missing(db, i));
        assert(imported_icon(i, imports[i], icons, start.custom_icons, icons));
    }
    assert forall|i: CustomIconId| #[trigger] start.custom_icons.contains_key(i) implies icons.contains_key(i) by {
        if !icons.contains_key(i) {
            let from = choose|from: CustomIconId| #[trigger]
                brought_as(from, i, icons, start.custom_icons, icons, imports);
            assert(imports[from] == Some(from));
        }
    }
    assert(start.custom_icons =~= icons);
    let aligned = aligned_source(db, db, imports);
    assert forall|e: EntryId| db.entries.contains_key(e) implies aligned.entries[e] == db.entries[e] by {
        lemma_same_icons(db.entries[e], db.groups[db.root], imports);
    }
    assert forall|g: GroupId| db.groups.contains_key(g) implies aligned.groups[g] == db.groups[g] by {
        lemma_same_icons(db.entries[EntryId { uuid: g.uuid }], db.groups[g], imports);
    }
    assert(aligned.entries =~= db.entries);
    assert(aligned.groups =~= db.groups);
}

/// A tidy database has nothing for itself.
proof fn lemma_tidy_at_rest(db: DatabaseModel, now: NaiveDateTime)
    requires
        tidy(db),
    ensures
        nothing_to_merge(db, db, now, true),
{
    assert forall|imports: Translation, start: DatabaseModel| #[trigger]
        icons_aligned(db, db, imports, start) implies is_resting(start, aligned_source(db, db, imports), now, true) by {
        lemma_aligned_with_itself(db, imports, start);
        lemma_tidy_is_resting(db, now);
    }
    if group_created(db, db, db.root) {
        lemma_tidy_is_resting(db, now);
        lemma_nothing_added(db, db, now, true);
    }
}

/// A tidy database has no groups and entries for itself.
proof fn lemma_tidy_is_resting(db: DatabaseModel, now: NaiveDateTime)
    requires
        tidy(db),
    ensures
        is_resting(db, db, now, true),
{
    assert forall|g: GroupId| !#[trigger] group_gone(db, db, g) by {
        if db.groups.contains_key(g) {
            lemma_kept_by_source(db, db, g);
        }
    }
    assert forall|e: EntryId| #[trigger] entry_shared(db, db, e) implies entry_settled(db, db, now, true, e) by {
        let entry = db.entries[e];
        assert(db.entries.contains_key(e));
        lemma_import_self(entry, db.attachments);
        assert(entry_at_rest(entry, entry, db.groups.contains_key(entry.parent), now, true));
        assert forall|pool: Pool, copy: EntryModel|
            pool_grown(db.attachments, pool, db.attachments) && #[trigger] imported(
                entry,
                copy,
                db.attachments,
                pool,
            ) implies copy == entry by {
            lemma_import_unique(entry, entry, copy, db.attachments, db.attachments, pool);
        }
    }
    assert forall|g: GroupId| #[trigger] group_shared(db.groups, db, g) implies group_settled(db, db, now, true, g) by {
        assert(db.groups.contains_key(g));
        lemma_time_total(
            db.groups[g].times.last_modification->0,
            db.groups[g].times.last_modification->0,
        );
    }
}

/// Merging a database with itself changes nothing and reports nothing.
pub proof fn merging_with_itself_changes_nothing(
    db: DatabaseModel,
    now: NaiveDateTime,
    course: MergeCourse,
    after: DatabaseModel,
)
    requires
        tidy(db),
        merged(db, db, now, course, after),
    ensures
        after == db,
        merge_notes(db, now, course) == LogModel::empty(),
{
    lemma_tidy_at_rest(db, now);
    merging_nothing_changes_nothing(db, db, now, true, course, after);
    assert(merge_notes(db, now, course).warnings =~= Seq::<Seq<char>>::empty());
    assert(merge_notes(db, now, course).events =~= Seq::<MergeEvent>::empty());
}

/// Merging a database with itself succeeds.
pub proof fn merging_with_itself_is_not_refused(db: DatabaseModel, now: NaiveDateTime, error: MergeError)
    requires
        tidy(db),
    ensures
        mergeable(db, db),
        !merge_refused(db, db, now, error),
{
    lemma_tidy_at_rest(db, now);
    merging_nothing_is_not_refused(db, db, now, true, error);
}

} // verus!

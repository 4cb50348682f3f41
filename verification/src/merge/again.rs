//! Merging the same source again.
use vstd::prelude::*;

use crate::datetime::{lemma_time_total, NaiveDateTime};
use crate::db::database::{histories_fit, DatabaseModel};
use crate::db::entry::EntryModel;
use crate::db::group::GroupModel;
use crate::db::icon::Icon;
use crate::db::tree::ancestor;
use crate::ids::{AttachmentId, CustomIconId, EntryId, GroupId};
use crate::merge::arrivals::{climbs, group_created, group_wanted};
use crate::merge::attachments::{
    entry_uses, imported, imported_version, lemma_import_uses, pool_grown, stands_for, Pool,
};
use crate::merge::deletion_laws::{
    arranged, enlarged, lemma_arranged, lemma_created_in_source, lemma_lasting_stays,
    no_group_is_left_to_remove,
};
use crate::merge::departures::{group_gone, group_lasts, lemma_gone_alike, lemma_kept_by_source};
use crate::merge::diverge::{entry_substance, group_substance};
use crate::merge::entries::{
    dest_modified, entries_merged, entry_conflict, entry_created, entry_level, entry_removed,
    entry_shared, merged_entries, placed_entry, reconciled_entry, shared_conflict, source_modified,
    versions,
};
use crate::merge::group_changes::{
    dest_group_modified, group_conflict, group_reconciling_notes, group_relocates, group_shared,
    groups_agree, merged_group, merged_groups, place_present, placed_group, reconciled_group,
    shared_group_conflict, source_group_modified,
};
use crate::merge::groups::has_undated;
use crate::merge::history::{dated, merged_history, same_version};
use crate::merge::history_laws::{
    lemma_filed_again, lemma_filed_in_order, lemma_history_uneventful,
    merged_history_keeps_every_version, merging_a_history_again_changes_nothing,
};
use crate::merge::icon_imports::{
    aligned_source, entry_untouched, group_untouched, icons_aligned, imported_icon,
    lemma_adopted_alike, lemma_alike, lemma_same_uses,
};
use crate::merge::icons::{
    icon_missing, icon_referenced, icons_adopted, lemma_nothing_retargeted, retargeted, shown_by,
    Icons, Translation,
};
use crate::merge::log::{group_log, uneventful, LogModel, MergeError};
use crate::merge::reference_laws::{
    entry_shows, icons_resolve, is_there, lemma_base_resolves, lemma_shown_is_referenced,
    lemma_use_is_reference, merged_icons_resolve, tidying_twice_is_tidying_once,
};
use crate::merge::references::{refers_at, Place, Reference};
use crate::merge::settled::{
    entry_at_rest, entry_settled, group_settled, is_resting, lemma_version_unique,
    merging_nothing_changes_nothing, merging_nothing_is_not_refused, nothing_to_merge,
};
use crate::merge::{merge_notes, merge_refused, mergeable, merged, tidied, MergeCourse};

verus! {

broadcast use group_log;

/// A merged entry is at rest: merging the same version of the source again changes nothing. The
/// second copy may keep attachments and icons that the entry does not have under other identifiers.
pub proof fn merged_entry_is_at_rest(
    dest: EntryModel,
    source: EntryModel,
    second: EntryModel,
    target_present: bool,
    target_later: bool,
    now: NaiveDateTime,
    again: NaiveDateTime,
)
    requires
        !entry_conflict(dest, source, now),
        dest.times.last_modification is None ==> source_modified(source) != now,
        dest.id == source.id,
        target_later ==> target_present,
        !NaiveDateTime::spec_epoch().is_after(now),
        !now.is_after(again),
        second == (EntryModel {
            icon: second.icon,
            attachments: second.attachments,
            history: second.history,
            ..source
        }),
        !dest_modified(dest, now).is_after(source_modified(source)) ==> second.attachments == source.attachments
            && second.icon == source.icon,
        dest == source ==> second == source,
        !entry_level(dest, source, now) ==> versions(second) == versions(source),
    ensures
        entry_at_rest(
            reconciled_entry(dest, source, target_present, now),
            second,
            target_later,
            again,
            false,
        ),
{
    let merged = reconciled_entry(dest, source, target_present, now);
    let placed = placed_entry(dest, source, target_present);
    let dest_time = dest_modified(dest, now);
    let source_time = source_modified(source);
    let epoch = NaiveDateTime::spec_epoch();
    lemma_time_total(dest_time, source_time);
    lemma_time_total(now, again);
    lemma_time_total(epoch, now);
    lemma_time_total(epoch, again);
    lemma_history_uneventful(versions(merged), versions(second));
    if source.times.location_changed is Some {
        lemma_time_total(source.times.location_changed->0, source.times.location_changed->0);
    }
    assert(placed_entry(merged, second, target_later) == merged);
    if dest == source {
        assert(merged == second);
    } else if dest_time.is_after(source_time) {
        let history = merged_history(versions(dest), versions(source));
        merging_a_history_again_changes_nothing(versions(dest), versions(source));
        assert(versions(merged) == history);
        lemma_time_total(dest_modified(merged, again), source_time);
        assert(dest_modified(merged, again).is_after(source_modified(second)));
    } else {
        let moved = EntryModel { parent: second.parent, ..merged };
        if source_time.is_after(dest_time) {
            let history = merged_history(versions(dest), versions(source));
            assert(dest.times.last_modification is Some || source.times.last_modification is Some);
            merging_a_history_again_changes_nothing(versions(dest), versions(source));
            if dest.times.last_modification is Some {
                lemma_filed_again(versions(dest), versions(source), placed.with_history(None));
            }
            assert(entry_substance(moved) == entry_substance(second));
            assert(!source_modified(second).is_after(dest_modified(merged, again)));
        } else {
            assert(dest_modified(merged, again) == source_modified(second));
            assert(merged == placed);
            assert(entry_substance(second) == entry_substance(source));
            assert(entry_substance(moved) == entry_substance(EntryModel { parent: source.parent, ..dest }));
        }
    }
}

/// A merged group is at rest: merging the same version of the source again changes nothing. The
/// second version may have an icon that the group does not have under another identifier.
pub proof fn merged_group_is_at_rest(
    dest: GroupModel,
    source: GroupModel,
    second: GroupModel,
    target_present: bool,
    now: NaiveDateTime,
    again: NaiveDateTime,
)
    requires
        !group_conflict(dest, source, target_present, now),
        dest.id == source.id,
        !NaiveDateTime::spec_epoch().is_after(now),
        !now.is_after(again),
        second == (GroupModel { icon: second.icon, ..source }),
        (group_relocates(dest, source) ==> target_present) && !dest_group_modified(dest, now).is_after(
            source_group_modified(source),
        ) ==> second.icon == source.icon,
    ensures
        !group_conflict(
            reconciled_group(dest, source, target_present, now),
            second,
            target_present,
            again,
        ),
        reconciled_group(
            reconciled_group(dest, source, target_present, now),
            second,
            target_present,
            again,
        ) == reconciled_group(dest, source, target_present, now),
        uneventful(
            group_reconciling_notes(
                reconciled_group(dest, source, target_present, now),
                second,
                target_present,
                again,
            ),
            false,
        ),
{
    let merged = reconciled_group(dest, source, target_present, now);
    let dest_time = dest_group_modified(dest, now);
    let source_time = source_group_modified(source);
    lemma_time_total(dest_time, source_time);
    lemma_time_total(dest_group_modified(merged, again), source_time);
    lemma_time_total(now, again);
    lemma_time_total(NaiveDateTime::spec_epoch(), now);
    lemma_time_total(NaiveDateTime::spec_epoch(), again);
    if source.times.location_changed is Some {
        lemma_time_total(source.times.location_changed->0, source.times.location_changed->0);
    }
    if group_relocates(dest, source) && !target_present {
        assert(merged == dest);
    } else if source_time.is_after(dest_time) {
        assert(group_substance(merged) == group_substance(source));
        assert(second == source);
    } else {
        assert(merged == placed_group(dest, source));
        assert(group_substance(merged) == group_substance(dest));
    }
}

/// A merge can be repeated without change. An object of the source whose deletion the destination has
/// on record does not have the identifier of an object of the other kind in the destination. And
/// where the destination's version of an entry is undated, the source's version is not of the very
/// moment of the merge.
pub open spec fn repeatable(dest: DatabaseModel, source: DatabaseModel, now: NaiveDateTime) -> bool {
    &&& forall|g: GroupId| #[trigger]
        source.groups.contains_key(g) && dest.deleted_objects.contains_key(g.uuid) ==> !dest.entries.contains_key(
            EntryId { uuid: g.uuid },
        )
    &&& forall|e: EntryId| #[trigger]
        source.entries.contains_key(e) && dest.deleted_objects.contains_key(e.uuid) ==> !dest.groups.contains_key(
            GroupId { uuid: e.uuid },
        )
    &&& forall|e: EntryId| #[trigger]
        entry_shared(dest, source, e) && dest.entries[e].times.last_modification is None ==> source_modified(
            source.entries[e],
        ) != now
}

/// What the destination holds after a merge that can be repeated.
proof fn lemma_after_repeatable(
    dest: DatabaseModel,
    source: DatabaseModel,
    now: NaiveDateTime,
    course: MergeCourse,
    after: DatabaseModel,
)
    requires
        source.wf(),
        histories_fit(dest),
        histories_fit(source),
        histories_fit(after),
        merged(dest, source, now, course, after),
        course.base == dest,
        repeatable(dest, source, now),
    ensures
        ({
            let aligned = aligned_source(dest, source, course.imports);
            let grown = enlarged(source, course);
            let middle = course.groups.middle;
            &&& forall|g: GroupId| #[trigger] after.groups.contains_key(g) ==> grown.groups.contains_key(g)
            &&& forall|g: GroupId| #[trigger]
                after.groups.contains_key(g) ==> after.groups[g] == merged_group(grown.groups, aligned, now, g)
            &&& forall|g: GroupId| #[trigger]
                source.groups.contains_key(g) && grown.groups.contains_key(g) ==> after.groups.contains_key(g)
            &&& forall|e: EntryId| #[trigger]
                after.entries.contains_key(e) ==> middle.entries.contains_key(e) && after.entries[e]
                    == middle.entries[e]
            &&& forall|e: EntryId| #[trigger]
                source.entries.contains_key(e) && middle.entries.contains_key(e) ==> after.entries.contains_key(e)
            &&& forall|a: AttachmentId| #[trigger]
                after.attachments.contains_key(a) ==> middle.attachments.contains_key(a)
                    && after.attachments[a].data == middle.attachments[a].data
            &&& forall|i: CustomIconId| #[trigger]
                after.custom_icons.contains_key(i) ==> course.start.custom_icons.contains_key(i)
                    && after.custom_icons[i].data == course.start.custom_icons[i].data
            &&& forall|e: EntryId, a: AttachmentId| #[trigger]
                after.entries.contains_key(e) && #[trigger] entry_uses(after.entries[e], a)
                    && middle.attachments.contains_key(a) ==> after.attachments.contains_key(a)
            &&& icons_resolve(after)
        }),
{
    let aligned = aligned_source(dest, source, course.imports);
    let grown = enlarged(source, course);
    let middle = course.groups.middle;
    let settled = arranged(source, now, course);
    lemma_alike(dest, source, course.imports, course.start);
    lemma_arranged(dest, source, now, course, after);
    assert(after.entries == course.settled.entries && after.groups == course.settled.groups);
    assert forall|g: GroupId| #[trigger] source.groups.contains_key(g) && grown.groups.contains_key(g) implies after.groups.contains_key(
        g,
    ) by {
        assert(settled.groups.contains_key(g));
        assert(aligned.groups.contains_key(g));
        assert(group_lasts(settled, aligned, g));
        lemma_lasting_stays(dest, source, now, course, after, g, EntryId { uuid: g.uuid });
    }
    assert forall|e: EntryId| #[trigger] source.entries.contains_key(e) && middle.entries.contains_key(e) implies after.entries.contains_key(
        e,
    ) by {
        assert(settled.entries.contains_key(e));
        lemma_lasting_stays(dest, source, now, course, after, dest.root, e);
    }
    assert forall|e: EntryId, a: AttachmentId| #[trigger]
        after.entries.contains_key(e) && #[trigger] entry_uses(after.entries[e], a) && middle.attachments.contains_key(
            a,
        ) implies after.attachments.contains_key(a) by {
        lemma_use_is_reference(after, e, a);
        let place = choose|place: Place| refers_at(after.entries, place, Reference::Attachment(a));
        assert(refers_at(course.settled.entries, place, Reference::Attachment(a)));
    }
    assert forall|e: EntryId, i: CustomIconId| #[trigger]
        after.entries.contains_key(e) && #[trigger] entry_shows(after.entries[e], i) implies after.custom_icons.contains_key(
        i,
    ) by {
        lemma_shown_is_referenced(after, e);
        merged_icons_resolve(dest, source, now, course, after, i);
    }
    assert forall|g: GroupId, i: CustomIconId| #[trigger]
        shown_by(after.groups, g, i) implies after.custom_icons.contains_key(i) by {
        assert(icon_referenced(after, i));
        merged_icons_resolve(dest, source, now, course, after, i);
    }
}

/// What stood for an icon of the source in a merge stands for it in the next one, if it is still
/// there.
proof fn lemma_stand_in_again(
    dest: DatabaseModel,
    source: DatabaseModel,
    now: NaiveDateTime,
    course: MergeCourse,
    after: DatabaseModel,
    imports: Translation,
    start: DatabaseModel,
    raw: Option<Icon>,
)
    requires
        merged(dest, source, now, course, after),
        course.base == dest,
        forall|i: CustomIconId| #[trigger]
            after.custom_icons.contains_key(i) ==> course.start.custom_icons.contains_key(i)
                && after.custom_icons[i].data == course.start.custom_icons[i].data,
        icons_aligned(after, source, imports, start),
        raw matches Some(Icon::Custom(x)) ==> icon_referenced(source, x),
        is_there(retargeted(raw, course.imports), after.custom_icons),
    ensures
        retargeted(raw, imports) == retargeted(raw, course.imports),
{
    if raw is Some && raw->0 is Custom {
        let x = raw->0->Custom_0;
        let s = source.custom_icons;
        let first = course.start.custom_icons;
        assert(imports.contains_key(x) && course.imports.contains_key(x));
        assert(imported_icon(x, course.imports[x], dest.custom_icons, first, s));
        assert(imported_icon(x, imports[x], after.custom_icons, start.custom_icons, s));
        if s.contains_key(x) {
            let j = course.imports[x]->0;
            let k = imports[x]->0;
            let table = start.custom_icons;
            assert(after.custom_icons.contains_key(j));
            assert(table.contains_key(j) && table[j].data == s[x].data);
            assert(table.contains_key(k) && table[k].data == s[x].data);
            if k != j {
                assert(after.custom_icons.contains_key(k));
                assert(first.contains_key(k) && first[k].data == first[j].data);
                assert(dest.custom_icons.contains_key(k) && dest.custom_icons.contains_key(j));
            }
        } else if course.imports[x] is None {
            if after.custom_icons.contains_key(x) {
                assert(first.contains_key(x));
            }
        }
    }
}

/// A version that was brought in, and whose attachments are kept, is brought in the same again.
proof fn lemma_version_again(
    from: EntryModel,
    first: EntryModel,
    second: EntryModel,
    source: Pool,
    middle: Pool,
    kept: Pool,
    pool: Pool,
)
    requires
        imported_version(from, first, source, middle),
        forall|a: AttachmentId| #[trigger] first.attachments.contains_value(a) ==> kept.contains_key(a),
        forall|a: AttachmentId| #[trigger]
            kept.contains_key(a) ==> middle.contains_key(a) && kept[a].data == middle[a].data,
        pool_grown(kept, pool, source),
        imported_version(from, second, source, pool),
    ensures
        first == second,
{
    assert forall|name: Seq<char>| #[trigger] from.attachments.contains_key(name) implies stands_for(
        kept,
        from.attachments[name],
        source[from.attachments[name]].data,
        first.attachments[name],
    ) by {
        assert(first.attachments.dom().contains(name) == from.attachments.dom().contains(name));
        assert(first.attachments.contains_key(name));
        assert(first.attachments.contains_value(first.attachments[name]));
    }
    lemma_version_unique(from, first, second, source, kept, pool);
}

/// What is brought in for an entry the second time is, as far as it counts, what was brought in the
/// first time.
proof fn lemma_copy_again(
    dest: EntryModel,
    from: EntryModel,
    from_again: EntryModel,
    first: EntryModel,
    second: EntryModel,
    target_present: bool,
    now: NaiveDateTime,
    source: Pool,
    middle: Pool,
    kept: Pool,
    pool: Pool,
    icons: Icons,
)
    requires
        imported(from, first, source, middle),
        imported(from_again, second, source, pool),
        from_again == (EntryModel { icon: from_again.icon, history: from_again.history, ..from }),
        from.history is Some <==> from_again.history is Some,
        from.history is Some ==> from.history->0.len() == from_again.history->0.len(),
        forall|i: int|
            from.history is Some && 0 <= i < from.history->0.len() && is_there(
                from.history->0[i].icon,
                icons,
            ) ==> #[trigger] from_again.history->0[i] == from.history->0[i],
        reconciled_entry(dest, first, target_present, now).icon == from.icon ==> from_again.icon == from.icon,
        !entry_conflict(dest, first, now),
        forall|a: AttachmentId| #[trigger]
            entry_uses(reconciled_entry(dest, first, target_present, now), a) && middle.contains_key(a)
                ==> kept.contains_key(a),
        forall|i: CustomIconId| #[trigger]
            entry_shows(reconciled_entry(dest, first, target_present, now), i) ==> icons.contains_key(i),
        forall|a: AttachmentId| #[trigger]
            kept.contains_key(a) ==> middle.contains_key(a) && kept[a].data == middle[a].data,
        pool_grown(kept, pool, source),
    ensures
        second == (EntryModel {
            icon: second.icon,
            attachments: second.attachments,
            history: second.history,
            ..first
        }),
        !dest_modified(dest, now).is_after(source_modified(first)) ==> second.attachments == first.attachments
            && second.icon == first.icon,
        dest == first ==> second == first,
        !entry_level(dest, first, now) ==> versions(second) == versions(first),
{
    let merged = reconciled_entry(dest, first, target_present, now);
    let placed = placed_entry(dest, first, target_present);
    lemma_import_uses(from, first, source, middle);
    lemma_time_total(dest_modified(dest, now), source_modified(first));
    assert(second.with_history(None) == (EntryModel {
        attachments: second.attachments,
        ..from_again.with_history(None)
    }));
    assert(first.with_history(None) == (EntryModel { attachments: first.attachments, ..from.with_history(None) }));
    assert(second == (EntryModel {
        icon: second.icon,
        attachments: second.attachments,
        history: second.history,
        ..first
    }));
    if !entry_level(dest, first, now) {
        let m = merged_history(versions(dest), versions(first));
        lemma_filed_in_order(m, placed.with_history(None));
        assert forall|i: int| 0 <= i < versions(first).len() implies versions(first)[i] == versions(second)[i] by {
            let v = first.history->0[i];
            assert(imported_version(from.history->0[i], v, source, middle));
            assert(imported_version(from_again.history->0[i], second.history->0[i], source, pool));
            assert(versions(first).contains(v));
            merged_history_keeps_every_version(versions(dest), versions(first), v);
            let y = choose|y: EntryModel| #[trigger] m.contains(y) && same_version(y, dated(v));
            assert(y.attachments == v.attachments && y.icon == v.icon) by {
                assert(entry_substance(y) == entry_substance(dated(v)));
                assert(entry_substance(y).attachments == y.attachments);
                assert(entry_substance(dated(v)).attachments == v.attachments);
                assert(entry_substance(y).icon == y.icon);
                assert(entry_substance(dated(v)).icon == v.icon);
            }
            assert(merged.history->0.contains(y));
            let k = choose|k: int| 0 <= k < merged.history->0.len() && merged.history->0[k] == y;
            assert forall|a: AttachmentId| #[trigger] v.attachments.contains_value(a) implies kept.contains_key(a) by {
                assert(merged.history->0[k].attachments.contains_value(a));
                assert(entry_uses(merged, a));
                assert(entry_uses(first, a));
            }
            assert(is_there(from.history->0[i].icon, icons)) by {
                if v.icon is Some && v.icon->0 is Custom {
                    assert(merged.history->0[k].icon == v.icon);
                    assert(entry_shows(merged, v.icon->0->Custom_0));
                }
            }
            assert(from_again.history->0[i] == from.history->0[i]);
            lemma_version_again(from.history->0[i], v, second.history->0[i], source, middle, kept, pool);
        }
        assert(versions(first) =~= versions(second));
    }
    if dest == first {
        assert(merged == first);
        assert(first.with_history(None).icon == from.icon);
        if from.history is Some {
            assert forall|i: int| 0 <= i < from.history->0.len() implies from_again.history->0[i]
                == from.history->0[i] by {
                assert(imported_version(from.history->0[i], first.history->0[i], source, middle));
                let icon = from.history->0[i].icon;
                assert(first.history->0[i].icon == icon);
                if icon is Some && icon->0 is Custom {
                    assert(entry_shows(merged, icon->0->Custom_0));
                }
                assert(is_there(icon, icons));
            }
            assert(from_again.history->0 =~= from.history->0);
        }
        assert(from_again == from);
        lemma_new_copy_again(from, first, second, source, middle, kept, pool);
    }
    if !dest_modified(dest, now).is_after(source_modified(first)) {
        assert(merged.attachments == first.attachments && merged.icon == first.icon) by {
            if dest_modified(dest, now) == source_modified(first) {
                let moved = EntryModel { parent: first.parent, ..dest };
                assert(entry_substance(moved).attachments == dest.attachments);
                assert(entry_substance(first).attachments == first.attachments);
                assert(entry_substance(moved).icon == dest.icon);
                assert(entry_substance(first).icon == first.icon);
            }
        }
        assert(first.with_history(None).icon == from.icon);
        assert forall|a: AttachmentId| #[trigger] first.with_history(None).attachments.contains_value(a) implies kept.contains_key(
            a,
        ) by {
            assert(entry_uses(merged, a));
            assert(entry_uses(first, a));
        }
        assert(from_again.with_history(None) == from.with_history(None));
        lemma_version_again(
            from.with_history(None),
            first.with_history(None),
            second.with_history(None),
            source,
            middle,
            kept,
            pool,
        );
    }
}

/// A new entry is at rest as it was brought in.
proof fn lemma_new_entry_at_rest(first: EntryModel, second: EntryModel, target: bool, again: NaiveDateTime)
    requires
        second == first,
    ensures
        entry_at_rest(first, second, target, again, false),
{
}

/// A new entry is brought in the same again.
proof fn lemma_new_copy_again(
    from: EntryModel,
    first: EntryModel,
    second: EntryModel,
    source: Pool,
    middle: Pool,
    kept: Pool,
    pool: Pool,
)
    requires
        imported(from, first, source, middle),
        imported(from, second, source, pool),
        forall|a: AttachmentId| #[trigger]
            entry_uses(first, a) && middle.contains_key(a) ==> kept.contains_key(a),
        forall|a: AttachmentId| #[trigger]
            kept.contains_key(a) ==> middle.contains_key(a) && kept[a].data == middle[a].data,
        pool_grown(kept, pool, source),
    ensures
        first == second,
{
    lemma_import_uses(from, first, source, middle);
    assert forall|a: AttachmentId| #[trigger] first.with_history(None).attachments.contains_value(a) implies kept.contains_key(
        a,
    ) by {
        assert(entry_uses(first, a));
    }
    lemma_version_again(
        from.with_history(None),
        first.with_history(None),
        second.with_history(None),
        source,
        middle,
        kept,
        pool,
    );
    if from.history is Some {
        assert forall|i: int| 0 <= i < from.history->0.len() implies first.history->0[i] == second.history->0[i] by {
            assert(imported_version(from.history->0[i], first.history->0[i], source, middle));
            assert(imported_version(from.history->0[i], second.history->0[i], source, pool));
            assert forall|a: AttachmentId| #[trigger] first.history->0[i].attachments.contains_value(a) implies kept.contains_key(
                a,
            ) by {
                assert(entry_uses(first, a));
            }
            lemma_version_again(
                from.history->0[i],
                first.history->0[i],
                second.history->0[i],
                source,
                middle,
                kept,
                pool,
            );
        }
        assert(first.history->0 =~= second.history->0);
    }
    assert(first == first.with_history(None).with_history(first.history));
    assert(second == second.with_history(None).with_history(second.history));
}

/// An entry of the source under the identifiers of the next merge.
proof fn lemma_aligned_again(
    dest: DatabaseModel,
    source: DatabaseModel,
    now: NaiveDateTime,
    course: MergeCourse,
    after: DatabaseModel,
    imports: Translation,
    start: DatabaseModel,
    e: EntryId,
)
    requires
        histories_fit(source),
        merged(dest, source, now, course, after),
        course.base == dest,
        forall|i: CustomIconId| #[trigger]
            after.custom_icons.contains_key(i) ==> course.start.custom_icons.contains_key(i)
                && after.custom_icons[i].data == course.start.custom_icons[i].data,
        icons_aligned(after, source, imports, start),
        source.entries.contains_key(e),
    ensures
        ({
            let from = aligned_source(dest, source, course.imports).entries[e];
            let from_again = aligned_source(after, source, imports).entries[e];
            let raw = source.entries[e].icon;
            &&& from_again == (EntryModel { icon: from_again.icon, history: from_again.history, ..from })
            &&& from.history is Some <==> from_again.history is Some
            &&& from.history is Some ==> from.history->0.len() == from_again.history->0.len()
            &&& forall|i: int|
                from.history is Some && 0 <= i < from.history->0.len() && is_there(
                    from.history->0[i].icon,
                    after.custom_icons,
                ) ==> #[trigger] from_again.history->0[i] == from.history->0[i]
            &&& is_there(retargeted(raw, course.imports), after.custom_icons) ==> retargeted(raw, imports)
                == retargeted(raw, course.imports)
        }),
{
    let from = aligned_source(dest, source, course.imports).entries[e];
    let from_again = aligned_source(after, source, imports).entries[e];
    let raw = source.entries[e];
    lemma_shown_is_referenced(source, e);
    if raw.icon is Some && raw.icon->0 is Custom {
        assert(entry_shows(raw, raw.icon->0->Custom_0));
    }
    if is_there(retargeted(raw.icon, course.imports), after.custom_icons) {
        lemma_stand_in_again(dest, source, now, course, after, imports, start, raw.icon);
    }
    assert forall|i: int|
        from.history is Some && 0 <= i < from.history->0.len() && is_there(
            from.history->0[i].icon,
            after.custom_icons,
        ) implies #[trigger] from_again.history->0[i] == from.history->0[i] by {
        let version = raw.history->0[i];
        if version.icon is Some && version.icon->0 is Custom {
            assert(entry_shows(raw, version.icon->0->Custom_0));
        }
        lemma_stand_in_again(dest, source, now, course, after, imports, start, version.icon);
    }
}

/// After a merge that can be repeated, an entry that both have is settled.
proof fn lemma_entry_settled_after(
    dest: DatabaseModel,
    source: DatabaseModel,
    now: NaiveDateTime,
    course: MergeCourse,
    after: DatabaseModel,
    again: NaiveDateTime,
    imports: Translation,
    start: DatabaseModel,
    e: EntryId,
)
    requires
        dest.wf(),
        source.wf(),
        histories_fit(dest),
        histories_fit(source),
        histories_fit(after),
        merged(dest, source, now, course, after),
        course.base == dest,
        repeatable(dest, source, now),
        !NaiveDateTime::spec_epoch().is_after(now),
        !now.is_after(again),
        icons_aligned(after, source, imports, start),
        entry_shared(after, source, e),
    ensures
        entry_settled(start, aligned_source(after, source, imports), again, false, e),
{
    let aligned = aligned_source(dest, source, course.imports);
    let aligned_again = aligned_source(after, source, imports);
    let grown = enlarged(source, course);
    let middle = course.groups.middle;
    let first = course.groups.entries.copies[e];
    let from = aligned.entries[e];
    let from_again = aligned_again.entries[e];
    let pool_source = source.attachments;
    lemma_after_repeatable(dest, source, now, course, after);
    lemma_alike(dest, source, course.imports, course.start);
    lemma_alike(after, source, imports, start);
    lemma_aligned_again(dest, source, now, course, after, imports, start, e);
    assert(source.entries.contains_key(e));
    assert(aligned.entries.contains_key(e));
    assert(after.entries.contains_key(e));
    assert(middle.entries.contains_key(e));
    assert(entry_shared(grown, aligned, e) || entry_created(grown, aligned, e));
    assert(imported(from, first, pool_source, middle.attachments));
    lemma_import_uses(from, first, pool_source, middle.attachments);
    lemma_same_uses(dest, source, course.imports, after, imports, e);
    let kept = after.attachments;
    let target_later = start.groups.contains_key(from_again.parent);
    assert forall|pool: Pool, second: EntryModel|
        pool_grown(start.attachments, pool, pool_source) && #[trigger] imported(
            from_again,
            second,
            pool_source,
            pool,
        ) implies entry_at_rest(start.entries[e], second, target_later, again, false) by {
        if entry_shared(grown, aligned, e) {
            lemma_shared_entry_at_rest(dest, source, now, course, after, again, imports, start, e, pool, second);
        } else {
            assert(after.entries[e] == first);
            assert forall|a: AttachmentId| #[trigger] entry_uses(first, a) && middle.attachments.contains_key(
                a,
            ) implies kept.contains_key(a) by {
                assert(entry_uses(after.entries[e], a));
            }
            lemma_created_same_again(dest, source, now, course, after, imports, start, e);
            lemma_new_copy_again(
                from,
                first,
                second,
                pool_source,
                middle.attachments,
                kept,
                pool,
            );
            assert(first.with_history(None).times == from.times);
            lemma_new_entry_at_rest(first, second, target_later, again);
        }
    }
}

/// An entry that was added is brought in from the same the next time.
proof fn lemma_created_same_again(
    dest: DatabaseModel,
    source: DatabaseModel,
    now: NaiveDateTime,
    course: MergeCourse,
    after: DatabaseModel,
    imports: Translation,
    start: DatabaseModel,
    e: EntryId,
)
    requires
        source.wf(),
        histories_fit(dest),
        histories_fit(source),
        histories_fit(after),
        merged(dest, source, now, course, after),
        course.base == dest,
        repeatable(dest, source, now),
        icons_aligned(after, source, imports, start),
        source.entries.contains_key(e),
        after.entries.contains_key(e),
        after.entries[e] == course.groups.entries.copies[e],
        entry_created(enlarged(source, course), aligned_source(dest, source, course.imports), e),
    ensures
        aligned_source(after, source, imports).entries[e] == aligned_source(dest, source, course.imports).entries[e],
{
    let aligned = aligned_source(dest, source, course.imports);
    let from = aligned.entries[e];
    let from_again = aligned_source(after, source, imports).entries[e];
    let first = course.groups.entries.copies[e];
    lemma_after_repeatable(dest, source, now, course, after);
    lemma_aligned_again(dest, source, now, course, after, imports, start, e);
    assert(aligned.entries.contains_key(e));
    assert(imported(from, first, source.attachments, course.groups.middle.attachments));
    assert(first.with_history(None).icon == from.icon);
    assert(!dest.entries.contains_key(e));
    assert(from.icon == retargeted(source.entries[e].icon, course.imports));
    if from.icon is Some && from.icon->0 is Custom {
        assert(entry_shows(after.entries[e], from.icon->0->Custom_0));
    }
    assert(from_again.icon == from.icon);
    if from.history is Some {
        assert forall|i: int| 0 <= i < from.history->0.len() implies from_again.history->0[i] == from.history->0[i] by {
            assert(imported_version(
                from.history->0[i],
                first.history->0[i],
                source.attachments,
                course.groups.middle.attachments,
            ));
            let icon = from.history->0[i].icon;
            assert(first.history->0[i].icon == icon);
            if icon is Some && icon->0 is Custom {
                assert(entry_shows(after.entries[e], icon->0->Custom_0));
            }
        }
        assert(from_again.history->0 =~= from.history->0);
    }
}

/// After a merge that can be repeated, an entry that both had is at rest.
proof fn lemma_shared_entry_at_rest(
    dest: DatabaseModel,
    source: DatabaseModel,
    now: NaiveDateTime,
    course: MergeCourse,
    after: DatabaseModel,
    again: NaiveDateTime,
    imports: Translation,
    start: DatabaseModel,
    e: EntryId,
    pool: Pool,
    second: EntryModel,
)
    requires
        dest.wf(),
        source.wf(),
        histories_fit(dest),
        histories_fit(source),
        histories_fit(after),
        merged(dest, source, now, course, after),
        course.base == dest,
        repeatable(dest, source, now),
        !NaiveDateTime::spec_epoch().is_after(now),
        !now.is_after(again),
        icons_aligned(after, source, imports, start),
        source.entries.contains_key(e),
        after.entries.contains_key(e),
        entry_shared(enlarged(source, course), aligned_source(dest, source, course.imports), e),
        pool_grown(after.attachments, pool, source.attachments),
        imported(aligned_source(after, source, imports).entries[e], second, source.attachments, pool),
    ensures
        entry_at_rest(
            after.entries[e],
            second,
            after.groups.contains_key(source.entries[e].parent),
            again,
            false,
        ),
{
    let aligned = aligned_source(dest, source, course.imports);
    let grown = enlarged(source, course);
    let middle = course.groups.middle;
    let first = course.groups.entries.copies[e];
    let from = aligned.entries[e];
    let from_again = aligned_source(after, source, imports).entries[e];
    let d = grown.entries[e];
    let target = grown.groups.contains_key(from.parent);
    let merged_entry = reconciled_entry(d, first, target, now);
    let target_later = after.groups.contains_key(source.entries[e].parent);
    lemma_after_repeatable(dest, source, now, course, after);
    lemma_alike(dest, source, course.imports, course.start);
    lemma_aligned_again(dest, source, now, course, after, imports, start, e);
    assert(aligned.entries.contains_key(e));
    assert(after.entries[e] == merged_entry);
    assert(imported(from, first, source.attachments, middle.attachments));
    assert(first.with_history(None).icon == from.icon);
    assert(first.with_history(None).times == from.times);
    assert(first.with_history(None).id == from.id);
    assert(!shared_conflict(grown, aligned, first, now, e));
    assert(entry_shared(dest, source, e));
    if merged_entry.icon == from.icon {
        if from.icon is Some && from.icon->0 is Custom {
            assert(entry_shows(after.entries[e], from.icon->0->Custom_0));
        }
        assert(is_there(from.icon, after.custom_icons));
        if entry_untouched(dest, source, e) {
            lemma_time_total(dest_modified(d, now), dest_modified(d, now));
            assert(entry_untouched(after, source, e));
        }
        assert(from_again.icon == from.icon);
    }
    assert forall|a: AttachmentId| #[trigger] entry_uses(merged_entry, a) && middle.attachments.contains_key(
        a,
    ) implies after.attachments.contains_key(a) by {
        assert(entry_uses(after.entries[e], a));
    }
    assert forall|i: CustomIconId| #[trigger] entry_shows(merged_entry, i) implies after.custom_icons.contains_key(i) by {
        assert(entry_shows(after.entries[e], i));
    }
    lemma_copy_again(
        d,
        from,
        from_again,
        first,
        second,
        target,
        now,
        source.attachments,
        middle.attachments,
        after.attachments,
        pool,
        after.custom_icons,
    );
    assert(d.id == first.id) by {
        assert(dest.entries.contains_key(e));
    }
    assert(target_later ==> target);
    merged_entry_is_at_rest(d, first, second, target, target_later, now, again);
}

/// After a merge that can be repeated, a group that both have is settled.
proof fn lemma_group_settled_after(
    dest: DatabaseModel,
    source: DatabaseModel,
    now: NaiveDateTime,
    course: MergeCourse,
    after: DatabaseModel,
    again: NaiveDateTime,
    imports: Translation,
    start: DatabaseModel,
    g: GroupId,
)
    requires
        dest.wf(),
        source.wf(),
        histories_fit(dest),
        histories_fit(source),
        histories_fit(after),
        merged(dest, source, now, course, after),
        course.base == dest,
        repeatable(dest, source, now),
        !NaiveDateTime::spec_epoch().is_after(now),
        !now.is_after(again),
        icons_aligned(after, source, imports, start),
        group_shared(after.groups, source, g),
    ensures
        group_settled(start, aligned_source(after, source, imports), again, false, g),
{
    let aligned = aligned_source(dest, source, course.imports);
    let aligned_again = aligned_source(after, source, imports);
    let grown = enlarged(source, course);
    lemma_after_repeatable(dest, source, now, course, after);
    lemma_alike(dest, source, course.imports, course.start);
    lemma_alike(after, source, imports, start);
    assert(source.groups.contains_key(g) && after.groups.contains_key(g));
    assert(aligned.groups.contains_key(g) && aligned_again.groups.contains_key(g));
    assert(grown.groups.contains_key(g));
    let d = grown.groups[g];
    let first = aligned.groups[g];
    let second = aligned_again.groups[g];
    let target = place_present(grown.groups, first);
    assert(group_shared(grown.groups, aligned, g));
    assert(!shared_group_conflict(grown.groups, aligned, now, g));
    assert(place_present(after.groups, second) == target) by {
        if first.parent is Some {
            assert(source.tree().contains_key(g));
            assert(source.tree()[g] == first.parent);
            assert(source.groups.contains_key(first.parent->0));
        }
    }
    assert(d.id == first.id) by {
        assert(source.groups[g].id == g);
        if dest.groups.contains_key(g) {
            assert(dest.groups[g].id == g);
        }
    }
    assert(after.groups[g] == reconciled_group(d, first, target, now));
    let raw = source.groups[g].icon;
    if raw is Some && raw->0 is Custom {
        assert(shown_by(source.groups, g, raw->0->Custom_0));
    }
    lemma_time_total(dest_group_modified(d, now), source_group_modified(first));
    if (group_relocates(d, first) ==> target) && !dest_group_modified(d, now).is_after(source_group_modified(first)) {
        assert(after.groups[g].icon == first.icon) by {
            if dest_group_modified(d, now) == source_group_modified(first) {
                assert(group_substance(d).icon == d.icon);
                assert(group_substance(first).icon == first.icon);
            }
        }
        if first.icon is Some && first.icon->0 is Custom {
            assert(shown_by(after.groups, g, first.icon->0->Custom_0));
        }
        assert(is_there(first.icon, after.custom_icons));
        if group_untouched(dest, source, g) {
            lemma_time_total(dest_group_modified(d, now), dest_group_modified(d, now));
            assert(group_untouched(after, source, g));
        } else {
            assert(first.icon == retargeted(raw, course.imports));
            lemma_stand_in_again(dest, source, now, course, after, imports, start, raw);
        }
        assert(second.icon == first.icon);
    }
    merged_group_is_at_rest(d, first, second, target, now, again);
}

/// A group that is not to go is not to go under the identifiers of the next merge either.
proof fn lemma_none_gone(
    after: DatabaseModel,
    source: DatabaseModel,
    imports: Translation,
    start: DatabaseModel,
    g: GroupId,
)
    requires
        icons_aligned(after, source, imports, start),
        !group_gone(after, source, g),
    ensures
        !group_gone(start, aligned_source(after, source, imports), g),
{
    lemma_alike(after, source, imports, start);
    let aligned = aligned_source(after, source, imports);
    assert(start.entries == after.entries && start.groups == after.groups);
    assert(aligned.groups.dom() =~= source.groups.dom());
    assert(aligned.entries.dom() =~= source.entries.dom());
    lemma_gone_alike(after, source, start, aligned, g);
}

/// After a merge that can be repeated, no object of the source is wanted and none is to be removed.
proof fn lemma_nothing_wanted(
    dest: DatabaseModel,
    source: DatabaseModel,
    now: NaiveDateTime,
    course: MergeCourse,
    after: DatabaseModel,
)
    requires
        dest.wf(),
        source.wf(),
        histories_fit(dest),
        histories_fit(source),
        histories_fit(after),
        merged(dest, source, now, course, after),
        course.base == dest,
        repeatable(dest, source, now),
    ensures
        forall|g: GroupId| !#[trigger] group_wanted(after, source, g),
        forall|e: EntryId| !#[trigger] entry_created(after, source, e),
        forall|e: EntryId| !#[trigger] entry_removed(after, source, e),
{
    let aligned = aligned_source(dest, source, course.imports);
    let grown = enlarged(source, course);
    let middle = course.groups.middle;
    let settled = arranged(source, now, course);
    lemma_after_repeatable(dest, source, now, course, after);
    lemma_alike(dest, source, course.imports, course.start);
    lemma_arranged(dest, source, now, course, after);
    assert forall|g: GroupId| !#[trigger] group_wanted(after, source, g) by {
        if group_wanted(after, source, g) {
            assert(source.groups.contains_key(g));
            assert(!grown.groups.contains_key(g));
            assert(!group_created(course.start, aligned, g));
            if group_wanted(dest, source, g) {
                assert(ancestor(source.tree(), g, 0) == Some(g));
                assert(climbs(source.tree(), dest.groups.dom(), g, g, 0));
                assert(group_created(dest, source, g));
            }
            assert(GroupId { uuid: g.uuid } == g);
            lemma_kept_by_source(settled, aligned, g);
            assert(!entry_removed(grown, aligned, EntryId { uuid: g.uuid }));
            assert(after.deleted_objects.contains_key(g.uuid));
            assert(after.deleted_objects[g.uuid] == dest.deleted_objects[g.uuid]);
        }
    }
    assert forall|e: EntryId| !#[trigger] entry_created(after, source, e) by {
        if entry_created(after, source, e) {
            assert(source.entries.contains_key(e));
            assert(aligned.entries.contains_key(e));
            assert(!middle.entries.contains_key(e));
            assert(!entry_removed(grown, aligned, e));
            assert(!grown.entries.contains_key(e));
            assert(!entry_created(grown, aligned, e));
            assert(grown.groups.contains_key(source.entries[e].parent));
            assert(EntryId { uuid: e.uuid } == e);
            let g = GroupId { uuid: e.uuid };
            assert(!group_gone(settled, aligned, g)) by {
                if group_gone(settled, aligned, g) {
                    assert(group_created(course.start, aligned, g));
                    lemma_created_in_source(course.start, aligned, g);
                    lemma_kept_by_source(settled, aligned, g);
                }
            }
            assert(after.deleted_objects.contains_key(e.uuid));
            assert(after.deleted_objects[e.uuid] == dest.deleted_objects[e.uuid]);
        }
    }
    assert forall|e: EntryId| !#[trigger] entry_removed(after, source, e) by {
        if entry_removed(after, source, e) {
            assert(middle.entries.contains_key(e));
            assert(!entry_created(grown, aligned, e));
            assert(middle.entries[e] == grown.entries[e]);
            assert(entry_removed(grown, aligned, e));
        }
    }
}

/// After a merge that can be repeated, the source has nothing more for the destination at a moment
/// that is not before that of the merge.
proof fn lemma_nothing_left(
    dest: DatabaseModel,
    source: DatabaseModel,
    now: NaiveDateTime,
    course: MergeCourse,
    after: DatabaseModel,
    again: NaiveDateTime,
)
    requires
        dest.wf(),
        source.wf(),
        after.wf(),
        histories_fit(dest),
        histories_fit(source),
        histories_fit(after),
        merged(dest, source, now, course, after),
        course.base == dest,
        repeatable(dest, source, now),
        !NaiveDateTime::spec_epoch().is_after(now),
        !now.is_after(again),
    ensures
        nothing_to_merge(after, source, again, false),
{
    lemma_after_repeatable(dest, source, now, course, after);
    lemma_nothing_wanted(dest, source, now, course, after);
    tidying_twice_is_tidying_once(course.settled);
    assert(tidied(after) == after);
    assert forall|i: CustomIconId| !#[trigger] icon_missing(after, i) by {
        merged_icons_resolve(dest, source, now, course, after, i);
    }
    assert(!group_created(after, source, source.root));
    assert forall|imports: Translation, start: DatabaseModel| #[trigger]
        icons_aligned(after, source, imports, start) implies is_resting(
        start,
        aligned_source(after, source, imports),
        again,
        false,
    ) by {
        let aligned = aligned_source(after, source, imports);
        lemma_alike(after, source, imports, start);
        assert forall|g: GroupId| !#[trigger] group_gone(start, aligned, g) by {
            no_group_is_left_to_remove(dest, source, now, course, after, g);
            lemma_none_gone(after, source, imports, start, g);
        }
        assert forall|e: EntryId| !#[trigger] entry_created(start, aligned, e) by {
            assert(!entry_created(after, source, e));
            if source.entries.contains_key(e) {
                assert(aligned.entries.contains_key(e));
            }
        }
        assert forall|e: EntryId| !#[trigger] entry_removed(start, aligned, e) by {
            assert(!entry_removed(after, source, e));
        }
        assert forall|e: EntryId| #[trigger] entry_shared(start, aligned, e) implies entry_settled(
            start,
            aligned,
            again,
            false,
            e,
        ) by {
            assert(entry_shared(after, source, e));
            lemma_entry_settled_after(dest, source, now, course, after, again, imports, start, e);
        }
        assert forall|g: GroupId| #[trigger] group_shared(start.groups, aligned, g) implies group_settled(
            start,
            aligned,
            again,
            false,
            g,
        ) by {
            assert(group_shared(after.groups, source, g));
            lemma_group_settled_after(dest, source, now, course, after, again, imports, start, g);
        }
    }
}

/// Where everything that both databases have is dated in the destination, the moment of a merge does
/// not matter.
pub proof fn moment_does_not_matter(
    dest: DatabaseModel,
    source: DatabaseModel,
    now: NaiveDateTime,
    course: MergeCourse,
    after: DatabaseModel,
    other: NaiveDateTime,
)
    requires
        merged(dest, source, now, course, after),
        !has_undated(dest, source),
        !NaiveDateTime::spec_epoch().is_after(now),
        !NaiveDateTime::spec_epoch().is_after(other),
    ensures
        merged(dest, source, other, course, after),
{
    let aligned = aligned_source(course.base, source, course.imports);
    let grown = enlarged(source, course);
    let copies = course.groups.entries.copies;
    lemma_adopted_alike(dest, source, course.translation, course.base);
    lemma_alike(course.base, source, course.imports, course.start);
    assert forall|e: EntryId| #[trigger] aligned.entries.contains_key(e) && entry_shared(grown, aligned, e) implies !shared_conflict(
        grown,
        aligned,
        copies[e],
        other,
        e,
    ) by {
        assert(entry_shared(dest, source, e));
    }
    assert forall|e: EntryId| #[trigger] entry_shared(grown, aligned, e) implies grown.entries[e].times.last_modification is Some by {
        assert(entry_shared(dest, source, e));
    }
    assert(merged_entries(grown, aligned, copies, other) =~= merged_entries(grown, aligned, copies, now));
    assert forall|g: GroupId| #[trigger] group_shared(grown.groups, aligned, g) implies merged_group(
        grown.groups,
        aligned,
        other,
        g,
    ) == merged_group(grown.groups, aligned, now, g) && shared_group_conflict(grown.groups, aligned, other, g)
        == shared_group_conflict(grown.groups, aligned, now, g) by {
        lemma_time_total(NaiveDateTime::spec_epoch(), now);
        lemma_time_total(NaiveDateTime::spec_epoch(), other);
        if dest.groups.contains_key(g) {
            assert(group_shared(dest.groups, source, g));
        } else {
            assert(grown.groups[g] == aligned.groups[g]);
        }
    }
    let middle = course.groups.middle;
    assert forall|g: GroupId| #[trigger] grown.groups.contains_key(g) implies merged_group(grown.groups, aligned, other, g)
        == merged_group(grown.groups, aligned, now, g) by {
        assert(group_shared(grown.groups, aligned, g) || !aligned.groups.contains_key(g));
    }
    assert(middle.groups == grown.groups);
    assert(merged_groups(middle.groups, aligned, other) =~= merged_groups(middle.groups, aligned, now));
    assert(entries_merged(grown, aligned, other, course.groups.entries, middle));
    assert(groups_agree(grown.groups, grown.root, aligned, other));
}

/// A merge is one into the destination with the icons that it showed without having them.
proof fn lemma_merged_from_base(
    dest: DatabaseModel,
    source: DatabaseModel,
    now: NaiveDateTime,
    course: MergeCourse,
    after: DatabaseModel,
)
    requires
        histories_fit(dest),
        merged(dest, source, now, course, after),
    ensures
        merged(course.base, source, now, (MergeCourse { translation: Map::empty(), ..course }), after),
{
    let base = course.base;
    let none = Map::<CustomIconId, Option<CustomIconId>>::empty();
    lemma_base_resolves(dest, source, course.translation, base);
    lemma_nothing_retargeted(base, none);
    assert forall|i: CustomIconId| #[trigger] none.contains_key(i) <==> icon_missing(base, i) by {
        assert(!icon_missing(base, i));
    }
    assert(icons_adopted(base, source, none, base));
}

/// What makes a merge repeatable holds of the destination with the icons that it showed without
/// having them.
proof fn lemma_repeatable_from_base(
    dest: DatabaseModel,
    source: DatabaseModel,
    now: NaiveDateTime,
    translation: Translation,
    base: DatabaseModel,
)
    requires
        dest.wf(),
        source.wf(),
        icons_adopted(dest, source, translation, base),
        repeatable(dest, source, now),
    ensures
        repeatable(base, source, now),
        has_undated(base, source) == has_undated(dest, source),
        base.wf(),
        histories_fit(base) == histories_fit(dest),
{
    lemma_adopted_alike(dest, source, translation, base);
    assert forall|e: EntryId| #[trigger] entry_shared(base, source, e) == entry_shared(dest, source, e) by {
        assert(base.entries.dom().contains(e) == dest.entries.dom().contains(e));
    }
    assert forall|g: GroupId| #[trigger] group_shared(base.groups, source, g) == group_shared(
        dest.groups,
        source,
        g,
    ) by {
        assert(base.groups.dom().contains(g) == dest.groups.dom().contains(g));
    }
    assert forall|e: EntryId| base.entries.contains_key(e) == #[trigger] dest.entries.contains_key(e) by {
        assert(base.entries.dom().contains(e) == dest.entries.dom().contains(e));
    }
    assert forall|g: GroupId| base.groups.contains_key(g) == #[trigger] dest.groups.contains_key(g) by {
        assert(base.groups.dom().contains(g) == dest.groups.dom().contains(g));
    }
    if has_undated(dest, source) {
        if exists|g: GroupId| #[trigger]
            group_shared(dest.groups, source, g) && dest.groups[g].times.last_modification is None {
            let g = choose|g: GroupId| #[trigger]
                group_shared(dest.groups, source, g) && dest.groups[g].times.last_modification is None;
            assert(group_shared(base.groups, source, g));
        } else {
            let e = choose|e: EntryId| #[trigger]
                entry_shared(dest, source, e) && dest.entries[e].times.last_modification is None;
            assert(entry_shared(base, source, e));
        }
    }
}

/// After a merge that can be repeated, the source has nothing more for the destination.
pub proof fn merging_leaves_nothing_to_merge(
    dest: DatabaseModel,
    source: DatabaseModel,
    now: NaiveDateTime,
    course: MergeCourse,
    after: DatabaseModel,
    again: NaiveDateTime,
)
    requires
        dest.wf(),
        source.wf(),
        after.wf(),
        histories_fit(dest),
        histories_fit(source),
        histories_fit(after),
        merged(dest, source, now, course, after),
        repeatable(dest, source, now),
        !NaiveDateTime::spec_epoch().is_after(now),
        !NaiveDateTime::spec_epoch().is_after(again),
        has_undated(dest, source) ==> !now.is_after(again),
    ensures
        nothing_to_merge(after, source, again, false),
{
    let base = course.base;
    let from_base = MergeCourse { translation: Map::empty(), ..course };
    lemma_merged_from_base(dest, source, now, course, after);
    lemma_repeatable_from_base(dest, source, now, course.translation, base);
    if has_undated(dest, source) {
        lemma_nothing_left(base, source, now, from_base, after, again);
    } else {
        moment_does_not_matter(base, source, now, from_base, after, again);
        assert(repeatable(base, source, again));
        lemma_time_total(again, again);
        lemma_nothing_left(base, source, again, from_base, after, again);
    }
}

/// Merging the same source twice in a row is merging it once: the second merge changes nothing and
/// reports no event. The moments matter only where the destination has something undated that the
/// source has too; there the second one is not before the first.
pub proof fn merging_again_changes_nothing(
    dest: DatabaseModel,
    source: DatabaseModel,
    now: NaiveDateTime,
    course: MergeCourse,
    after: DatabaseModel,
    again: NaiveDateTime,
    second: MergeCourse,
    last: DatabaseModel,
)
    requires
        dest.wf(),
        source.wf(),
        after.wf(),
        histories_fit(dest),
        histories_fit(source),
        histories_fit(after),
        merged(dest, source, now, course, after),
        repeatable(dest, source, now),
        !NaiveDateTime::spec_epoch().is_after(now),
        !NaiveDateTime::spec_epoch().is_after(again),
        has_undated(dest, source) ==> !now.is_after(again),
        merged(after, source, again, second, last),
    ensures
        last == after,
        merge_notes(source, again, second).events.len() == 0,
{
    merging_leaves_nothing_to_merge(dest, source, now, course, after, again);
    merging_nothing_changes_nothing(after, source, again, false, second, last);
}

/// Merging the same source twice in a row succeeds the second time.
pub proof fn merging_again_is_not_refused(
    dest: DatabaseModel,
    source: DatabaseModel,
    now: NaiveDateTime,
    course: MergeCourse,
    after: DatabaseModel,
    again: NaiveDateTime,
    error: MergeError,
)
    requires
        dest.wf(),
        source.wf(),
        after.wf(),
        histories_fit(dest),
        histories_fit(source),
        histories_fit(after),
        merged(dest, source, now, course, after),
        repeatable(dest, source, now),
        !NaiveDateTime::spec_epoch().is_after(now),
        !NaiveDateTime::spec_epoch().is_after(again),
        has_undated(dest, source) ==> !now.is_after(again),
    ensures
        mergeable(after, source),
        !merge_refused(after, source, again, error),
{
    merging_leaves_nothing_to_merge(dest, source, now, course, after, again);
    merging_nothing_is_not_refused(after, source, again, false, error);
}

/// What two calls of `Database::merge` with the same source come to, where everything that both
/// databases have is dated in the destination: the second one succeeds, changes nothing and reports
/// no event, whatever the clock shows.
pub proof fn merging_twice_is_merging_once(
    dest: DatabaseModel,
    source: DatabaseModel,
    after: DatabaseModel,
    last: DatabaseModel,
    log: LogModel,
    error: MergeError,
)
    requires
        dest.wf(),
        source.wf(),
        after.wf(),
        histories_fit(dest),
        histories_fit(source),
        histories_fit(after),
        !has_undated(dest, source),
        repeatable(dest, source, NaiveDateTime::spec_epoch()),
        exists|now: NaiveDateTime, course: MergeCourse|
            !NaiveDateTime::spec_epoch().is_after(now) && #[trigger] merged(dest, source, now, course, after),
    ensures
        mergeable(after, source),
        !exists|now: NaiveDateTime|
            !NaiveDateTime::spec_epoch().is_after(now) && #[trigger] merge_refused(after, source, now, error),
        (exists|now: NaiveDateTime, course: MergeCourse|
            {
                &&& !NaiveDateTime::spec_epoch().is_after(now)
                &&& #[trigger] merged(after, source, now, course, last)
                &&& log == merge_notes(source, now, course)
            }) ==> last == after && log.events.len() == 0,
{
    let (now, course) = choose|now: NaiveDateTime, course: MergeCourse|
        !NaiveDateTime::spec_epoch().is_after(now) && #[trigger] merged(dest, source, now, course, after);
    assert(repeatable(dest, source, now));
    merging_again_is_not_refused(dest, source, now, course, after, now, error);
    assert forall|again: NaiveDateTime| !NaiveDateTime::spec_epoch().is_after(again) implies !#[trigger] merge_refused(
        after,
        source,
        again,
        error,
    ) by {
        merging_again_is_not_refused(dest, source, now, course, after, again, error);
    }
    assert forall|again: NaiveDateTime, second: MergeCourse|
        !NaiveDateTime::spec_epoch().is_after(again) && #[trigger] merged(after, source, again, second, last) && log
            == merge_notes(source, again, second) implies last == after && log.events.len() == 0 by {
        merging_again_changes_nothing(dest, source, now, course, after, again, second, last);
    }
}

} // verus!

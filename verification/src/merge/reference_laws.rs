//! What holds of the attachments and custom icons of a merged database.
use vstd::prelude::*;

use crate::datetime::{lemma_time_total, NaiveDateTime};
use crate::db::database::{histories_fit, DatabaseModel};
use crate::db::entry::EntryModel;
use crate::db::icon::Icon;
use crate::ids::{AttachmentId, CustomIconId, EntryId, GroupId};
use crate::merge::arrivals::{group_created, with_new_groups};
use crate::merge::attachments::{
    entry_uses, imported, imported_version, indexed_attachments, lemma_import_uses, Pool,
};
use crate::merge::deletion_laws::{enlarged, lemma_created_in_source};
use crate::merge::entries::{
    archived, dest_modified, entries_merged, entry_created, entry_shared, placed_entry,
    reconciled_entry, source_modified, versions, EntriesCourse,
};
use crate::merge::group_changes::{dest_group_modified, group_relocates, source_group_modified};
use crate::merge::history::{dated, merged_history};
use crate::merge::history_laws::{lemma_filed_in_order, merged_history_adds_no_version};
use crate::merge::icon_imports::{
    aligned_source, entry_untouched, group_untouched, icons_aligned, imported_icon,
    lemma_adopted_alike, lemma_alike,
};
use crate::merge::icons::{
    icon_missing, icon_referenced, icons_adopted, indexed_icons, retargeted, retargeted_entry,
    retargeted_group, showing_groups, shown_by, translated, Icons, Translation,
};
use crate::merge::references::{places, refers_at, version_at, Place, Reference};
use crate::merge::settled::attachments_resolve;
use crate::merge::{merged, tidied, MergeCourse};

verus! {

/// Tidying a database twice is tidying it once.
pub proof fn tidying_twice_is_tidying_once(db: DatabaseModel)
    ensures
        tidied(tidied(db)) == tidied(db),
{
    let once = tidied(db);
    assert forall|a: AttachmentId| once.attachments.contains_key(a) implies indexed_attachments(once).contains_key(a)
        && indexed_attachments(once)[a] == once.attachments[a] by {}
    assert(indexed_attachments(once) =~= once.attachments);
    assert(once.entries == db.entries && once.groups == db.groups);
    assert forall|i: CustomIconId| icon_referenced(once, i) == icon_referenced(db, i) by {
        if icon_referenced(once, i) {
            assert(icon_referenced(db, i));
        }
    }
    assert(indexed_icons(once) =~= once.custom_icons);
}

/// Dropping unused icons twice is dropping them once.
pub proof fn pruning_twice_is_pruning_once(db: DatabaseModel)
    ensures
        indexed_icons(DatabaseModel { custom_icons: indexed_icons(db), ..db }) == indexed_icons(db),
{
    let once = DatabaseModel { custom_icons: indexed_icons(db), ..db };
    assert(once.entries == db.entries && once.groups == db.groups);
    assert forall|i: CustomIconId| icon_referenced(once, i) == icon_referenced(db, i) by {
        if icon_referenced(once, i) {
            assert(icon_referenced(db, i));
        }
    }
    assert(indexed_icons(once) =~= indexed_icons(db));
}

/// Dropping unused icons drops exactly the icons that no version of an entry and no group shows,
/// and no image changes.
pub proof fn pruning_keeps_what_is_shown(db: DatabaseModel, icon: CustomIconId)
    requires
        db.custom_icons.contains_key(icon),
    ensures
        indexed_icons(db).contains_key(icon) <==> icon_referenced(db, icon),
        indexed_icons(db).contains_key(icon) ==> indexed_icons(db)[icon].data == db.custom_icons[icon].data,
{
}

/// What a place shows after icons were replaced is not translated, or it is a translation.
proof fn lemma_shown_after(
    before: DatabaseModel,
    source: DatabaseModel,
    translation: Translation,
    after: DatabaseModel,
    icon: CustomIconId,
)
    requires
        icons_adopted(before, source, translation, after),
        icon_referenced(after, icon),
    ensures
        after.custom_icons.contains_key(icon),
{
    let origin: CustomIconId = if exists|place: Place| refers_at(after.entries, place, Reference::Icon(icon)) {
        let place = choose|place: Place| refers_at(after.entries, place, Reference::Icon(icon));
        let entry = before.entries[place.0];
        let version = version_at(entry, place.1)->0;
        assert(after.entries[place.0] == retargeted_entry(entry, translation));
        assert(version_at(entry, place.1) is Some);
        assert(version_at(after.entries[place.0], place.1)->0.icon == retargeted(version.icon, translation));
        assert(version.icon is Some && version.icon->0 is Custom);
        let origin = version.icon->0->Custom_0;
        assert(refers_at(before.entries, place, Reference::Icon(origin)));
        origin
    } else {
        let g = choose|g: GroupId| shown_by(after.groups, g, icon);
        assert(after.groups[g] == retargeted_group(before.groups[g], translation));
        let origin = before.groups[g].icon->0->Custom_0;
        assert(shown_by(before.groups, g, origin));
        origin
    };
    assert(icon_referenced(before, origin));
    if translation.contains_key(origin) {
        assert(translation[origin] == Some(icon));
        assert(translated(origin, translation[origin], after.custom_icons, source.custom_icons));
    } else {
        assert(origin == icon);
        assert(!icon_missing(before, origin));
    }
}

/// A version or one of the archived versions of an entry shows a custom icon.
pub open spec fn entry_shows(entry: EntryModel, icon: CustomIconId) -> bool {
    ||| entry.icon == Some(Icon::Custom(icon))
    ||| entry.history is Some && exists|i: int|
        0 <= i < entry.history->0.len() && (#[trigger] entry.history->0[i]).icon == Some(Icon::Custom(icon))
}

/// Every custom icon that is shown is there.
pub open spec fn icons_resolve(db: DatabaseModel) -> bool {
    &&& forall|e: EntryId, i: CustomIconId| #[trigger]
        db.entries.contains_key(e) && #[trigger] entry_shows(db.entries[e], i) ==> db.custom_icons.contains_key(i)
    &&& forall|g: GroupId, i: CustomIconId| #[trigger]
        shown_by(db.groups, g, i) ==> db.custom_icons.contains_key(i)
}

/// A custom icon is in a table, if it is one.
pub open spec fn is_there(icon: Option<Icon>, icons: Icons) -> bool {
    icon matches Some(Icon::Custom(i)) ==> icons.contains_key(i)
}

/// What a version of the source shows under the identifiers of the destination is there.
pub proof fn lemma_stand_in_is_there(
    dest: DatabaseModel,
    source: DatabaseModel,
    imports: Translation,
    start: DatabaseModel,
    raw: Option<Icon>,
)
    requires
        icons_aligned(dest, source, imports, start),
        raw matches Some(Icon::Custom(x)) ==> icon_referenced(source, x),
    ensures
        is_there(retargeted(raw, imports), start.custom_icons),
{
    if raw is Some && raw->0 is Custom {
        let x = raw->0->Custom_0;
        assert(imports.contains_key(x));
        assert(imported_icon(x, imports[x], dest.custom_icons, start.custom_icons, source.custom_icons));
    }
}

/// What an entry of the source shows is referenced there.
pub proof fn lemma_shown_is_referenced(db: DatabaseModel, e: EntryId)
    requires
        db.entries.contains_key(e),
        histories_fit(db),
    ensures
        forall|i: CustomIconId| #[trigger] entry_shows(db.entries[e], i) ==> icon_referenced(db, i),
{
    let entry = db.entries[e];
    assert forall|i: CustomIconId| #[trigger] entry_shows(entry, i) implies icon_referenced(db, i) by {
        if entry.icon == Some(Icon::Custom(i)) {
            assert(refers_at(db.entries, (e, None::<usize>), Reference::Icon(i)));
        } else {
            let k = choose|k: int|
                0 <= k < entry.history->0.len() && (#[trigger] entry.history->0[k]).icon == Some(Icon::Custom(i));
            assert(refers_at(db.entries, (e, Some(k as usize)), Reference::Icon(i)));
        }
    }
}

/// What an entry of the source shows under the identifiers of the destination is there.
proof fn lemma_aligned_is_there(
    dest: DatabaseModel,
    source: DatabaseModel,
    imports: Translation,
    start: DatabaseModel,
    e: EntryId,
    i: CustomIconId,
)
    requires
        icons_aligned(dest, source, imports, start),
        icons_resolve(dest),
        histories_fit(source),
        source.entries.contains_key(e),
        entry_shows(aligned_source(dest, source, imports).entries[e], i),
    ensures
        start.custom_icons.contains_key(i),
{
    let raw = source.entries[e];
    let shown = aligned_source(dest, source, imports).entries[e];
    lemma_shown_is_referenced(source, e);
    if raw.icon is Some && raw.icon->0 is Custom {
        assert(entry_shows(raw, raw.icon->0->Custom_0));
    }
    lemma_stand_in_is_there(dest, source, imports, start, raw.icon);
    if shown.icon == Some(Icon::Custom(i)) {
        if entry_untouched(dest, source, e) {
            assert(entry_shows(dest.entries[e], i));
        }
    } else {
        let k = choose|k: int|
            0 <= k < shown.history->0.len() && (#[trigger] shown.history->0[k]).icon == Some(Icon::Custom(i));
        let version = raw.history->0[k];
        if version.icon is Some && version.icon->0 is Custom {
            assert(entry_shows(raw, version.icon->0->Custom_0));
        }
        lemma_stand_in_is_there(dest, source, imports, start, version.icon);
    }
}

/// A merged entry shows what one of its two versions shows.
proof fn lemma_reconciled_shows(
    dest: EntryModel,
    source: EntryModel,
    target_present: bool,
    now: NaiveDateTime,
    i: CustomIconId,
)
    requires
        entry_shows(reconciled_entry(dest, source, target_present, now), i),
    ensures
        entry_shows(dest, i) || entry_shows(source, i),
{
    let merged = reconciled_entry(dest, source, target_present, now);
    let placed = placed_entry(dest, source, target_present);
    let history = merged_history(versions(dest), versions(source));
    let wanted = Some(Icon::Custom(i));
    if merged.icon != wanted {
        let k = choose|k: int| 0 <= k < merged.history->0.len() && (#[trigger] merged.history->0[k]).icon == wanted;
        let version = merged.history->0[k];
        if merged.history == dest.history {
            assert(dest.history->0[k].icon == wanted);
        } else if history.contains(version) {
            merged_history_adds_no_version(versions(dest), versions(source), version);
            let v = choose|v: EntryModel|
                (versions(dest).contains(v) || versions(source).contains(v)) && version == #[trigger] dated(v);
            if versions(dest).contains(v) {
                let j = choose|j: int| 0 <= j < versions(dest).len() && versions(dest)[j] == v;
                assert(dest.history->0[j].icon == wanted);
            } else {
                let j = choose|j: int| 0 <= j < versions(source).len() && versions(source)[j] == v;
                assert(source.history->0[j].icon == wanted);
            }
        } else {
            assert(merged.history->0 == archived(placed, history)) by {
                if merged.history->0 == history {
                    assert(history.contains(history[k]));
                }
            }
            lemma_filed_in_order(history, placed.with_history(None));
            assert(merged.history->0.contains(version));
            assert(version == placed.with_history(None));
        }
    }
}

/// A copy shows what its original shows.
proof fn lemma_copy_shows(from: EntryModel, to: EntryModel, source: Pool, dest: Pool, i: CustomIconId)
    requires
        imported(from, to, source, dest),
        entry_shows(to, i),
    ensures
        entry_shows(from, i),
{
    assert(to.with_history(None).icon == from.with_history(None).icon);
    if to.icon != Some(Icon::Custom(i)) {
        let k = choose|k: int|
            0 <= k < to.history->0.len() && (#[trigger] to.history->0[k]).icon == Some(Icon::Custom(i));
        assert(imported_version(from.history->0[k], to.history->0[k], source, dest));
        assert(from.history->0[k].icon == Some(Icon::Custom(i)));
    }
}

/// What an entry shows once entries are merged is there.
proof fn lemma_middle_is_there(
    dest: DatabaseModel,
    source: DatabaseModel,
    now: NaiveDateTime,
    course: MergeCourse,
    after: DatabaseModel,
    e: EntryId,
    i: CustomIconId,
)
    requires
        histories_fit(source),
        icons_resolve(course.base),
        merged(dest, source, now, course, after),
        course.groups.middle.entries.contains_key(e),
        entry_shows(course.groups.middle.entries[e], i),
    ensures
        course.start.custom_icons.contains_key(i),
{
    let aligned = aligned_source(course.base, source, course.imports);
    let grown = enlarged(source, course);
    let middle = course.groups.middle;
    let copy = course.groups.entries.copies[e];
    if entry_shared(grown, aligned, e) || entry_created(grown, aligned, e) {
        assert(source.entries.contains_key(e));
        assert(aligned.entries.contains_key(e));
        if entry_shared(grown, aligned, e) {
            lemma_reconciled_shows(
                grown.entries[e],
                copy,
                grown.groups.contains_key(aligned.entries[e].parent),
                now,
                i,
            );
        }
        if entry_shows(copy, i) {
            lemma_copy_shows(aligned.entries[e], copy, aligned.attachments, middle.attachments, i);
            lemma_aligned_is_there(course.base, source, course.imports, course.start, e, i);
        } else {
            assert(course.base.entries.contains_key(e) && entry_shows(course.base.entries[e], i));
        }
    } else {
        assert(course.base.entries.contains_key(e) && entry_shows(course.base.entries[e], i));
    }
}

/// Once it has taken over icons, the destination has all icons that it shows.
pub proof fn lemma_base_resolves(
    dest: DatabaseModel,
    source: DatabaseModel,
    translation: Translation,
    base: DatabaseModel,
)
    requires
        histories_fit(dest),
        icons_adopted(dest, source, translation, base),
    ensures
        icons_resolve(base),
        forall|i: CustomIconId| !#[trigger] icon_missing(base, i),
{
    lemma_adopted_alike(dest, source, translation, base);
    assert forall|i: CustomIconId| !#[trigger] icon_missing(base, i) by {
        if icon_referenced(base, i) {
            lemma_shown_after(dest, source, translation, base, i);
        }
    }
    assert forall|e: EntryId, i: CustomIconId| #[trigger]
        base.entries.contains_key(e) && #[trigger] entry_shows(base.entries[e], i) implies base.custom_icons.contains_key(
        i,
    ) by {
        lemma_shown_is_referenced(base, e);
        assert(!icon_missing(base, i));
    }
    assert forall|g: GroupId, i: CustomIconId| #[trigger] shown_by(base.groups, g, i) implies base.custom_icons.contains_key(
        i,
    ) by {
        assert(!icon_missing(base, i));
    }
}

/// After a merge every custom icon that is shown is there.
pub proof fn merged_icons_resolve(
    dest: DatabaseModel,
    source: DatabaseModel,
    now: NaiveDateTime,
    course: MergeCourse,
    after: DatabaseModel,
    icon: CustomIconId,
)
    requires
        source.wf(),
        histories_fit(dest),
        histories_fit(source),
        merged(dest, source, now, course, after),
    ensures
        !icon_missing(after, icon),
{
    let aligned = aligned_source(course.base, source, course.imports);
    let grown = enlarged(source, course);
    let middle = course.groups.middle;
    let settled = course.settled;
    lemma_base_resolves(dest, source, course.translation, course.base);
    lemma_alike(course.base, source, course.imports, course.start);
    assert(after.entries == settled.entries && after.groups == settled.groups);
    if icon_referenced(after, icon) {
        assert(icon_referenced(settled, icon));
        assert(course.start.custom_icons.contains_key(icon)) by {
            if exists|place: Place| refers_at(settled.entries, place, Reference::Icon(icon)) {
                let place = choose|place: Place| refers_at(settled.entries, place, Reference::Icon(icon));
                let e = place.0;
                assert(middle.entries.contains_key(e) && settled.entries[e] == middle.entries[e]);
                assert(entry_shows(middle.entries[e], icon)) by {
                    match place.1 {
                        Some(k) => {
                            assert(middle.entries[e].history->0[k as int].icon == Some(Icon::Custom(icon)));
                        },
                        None => {},
                    }
                }
                lemma_middle_is_there(dest, source, now, course, after, e, icon);
            } else {
                let g = choose|g: GroupId| shown_by(settled.groups, g, icon);
                assert(grown.groups.contains_key(g));
                let own = grown.groups[g];
                if source.groups.contains_key(g) {
                    let raw = source.groups[g].icon;
                    if raw is Some && raw->0 is Custom {
                        assert(shown_by(source.groups, g, raw->0->Custom_0));
                    }
                    lemma_stand_in_is_there(course.base, source, course.imports, course.start, raw);
                    if group_untouched(course.base, source, g) && raw == Some(Icon::Custom(icon)) {
                        assert(shown_by(course.base.groups, g, icon));
                    }
                }
                if course.base.groups.contains_key(g) {
                    if own.icon == Some(Icon::Custom(icon)) {
                        assert(shown_by(course.base.groups, g, icon));
                    }
                } else {
                    assert(group_created(course.start, aligned, g));
                    lemma_created_in_source(course.start, aligned, g);
                }
            }
        }
    }
}

/// After a merge there is no attachment and no custom icon to which nothing refers, and the index of
/// the others is right.
pub proof fn merged_references_are_indexed(
    dest: DatabaseModel,
    source: DatabaseModel,
    now: NaiveDateTime,
    course: MergeCourse,
    after: DatabaseModel,
)
    requires
        merged(dest, source, now, course, after),
    ensures
        tidied(after) == after,
        forall|a: AttachmentId| #[trigger]
            after.attachments.contains_key(a) ==> after.attachments[a].entries == places(
                after.entries,
                Reference::Attachment(a),
            ) && exists|place: Place| after.attachments[a].entries.contains(place),
        forall|i: CustomIconId| #[trigger]
            after.custom_icons.contains_key(i) ==> icon_referenced(after, i) && after.custom_icons[i].entries
                == places(after.entries, Reference::Icon(i)) && after.custom_icons[i].groups == showing_groups(
                after.groups,
                i,
            ),
{
    tidying_twice_is_tidying_once(course.settled);
    assert forall|a: AttachmentId| #[trigger] after.attachments.contains_key(a) implies exists|place: Place|
        after.attachments[a].entries.contains(place) by {
        let place = choose|place: Place| refers_at(course.settled.entries, place, Reference::Attachment(a));
        assert(after.attachments[a].entries.contains(place));
    }
    assert forall|i: CustomIconId| icon_referenced(after, i) == icon_referenced(course.settled, i) by {}
}

/// An entry that uses an attachment refers to it in some version.
pub proof fn lemma_use_is_reference(db: DatabaseModel, e: EntryId, a: AttachmentId)
    requires
        histories_fit(db),
        db.entries.contains_key(e),
        entry_uses(db.entries[e], a),
    ensures
        exists|place: Place| refers_at(db.entries, place, Reference::Attachment(a)),
{
    let entry = db.entries[e];
    if entry.attachments.contains_value(a) {
        let name = choose|name: Seq<char>| entry.attachments.contains_key(name) && entry.attachments[name] == a;
        assert(entry.attachments.contains_key(name));
        assert(refers_at(db.entries, (e, None::<usize>), Reference::Attachment(a)));
    } else {
        let i = choose|i: int|
            0 <= i < entry.history->0.len() && (#[trigger] entry.history->0[i]).attachments.contains_value(a);
        let version = entry.history->0[i];
        let name = choose|name: Seq<char>| version.attachments.contains_key(name) && version.attachments[name] == a;
        assert(version.attachments.contains_key(name));
        assert(version_at(entry, Some(i as usize)) == Some(version));
        assert(refers_at(db.entries, (e, Some(i as usize)), Reference::Attachment(a)));
    }
}

/// A merged entry uses what one of its two versions used.
pub proof fn lemma_reconciled_uses(
    dest: EntryModel,
    source: EntryModel,
    target_present: bool,
    now: NaiveDateTime,
    a: AttachmentId,
)
    requires
        entry_uses(reconciled_entry(dest, source, target_present, now), a),
    ensures
        entry_uses(dest, a) || entry_uses(source, a),
{
    let merged = reconciled_entry(dest, source, target_present, now);
    let placed = placed_entry(dest, source, target_present);
    let history = merged_history(versions(dest), versions(source));
    if !merged.attachments.contains_value(a) {
        let i = choose|i: int|
            0 <= i < merged.history->0.len() && (#[trigger] merged.history->0[i]).attachments.contains_value(a);
        let version = merged.history->0[i];
        if merged.history == dest.history {
            assert(dest.history->0[i].attachments.contains_value(a));
        } else if history.contains(version) {
            merged_history_adds_no_version(versions(dest), versions(source), version);
            let v = choose|v: EntryModel|
                (versions(dest).contains(v) || versions(source).contains(v)) && version == #[trigger] dated(v);
            if versions(dest).contains(v) {
                let j = choose|j: int| 0 <= j < versions(dest).len() && versions(dest)[j] == v;
                assert(dest.history->0[j].attachments.contains_value(a));
            } else {
                let j = choose|j: int| 0 <= j < versions(source).len() && versions(source)[j] == v;
                assert(source.history->0[j].attachments.contains_value(a));
            }
        } else {
            assert(merged.history->0 == archived(placed, history)) by {
                if merged.history->0 == history {
                    assert(history.contains(history[i]));
                }
            }
            lemma_filed_in_order(history, placed.with_history(None));
            assert(merged.history->0.contains(version));
            assert(version == placed.with_history(None));
        }
    }
}

/// Once its entries are merged, the destination has every attachment to which they refer.
proof fn lemma_entries_resolve(
    dest: DatabaseModel,
    source: DatabaseModel,
    now: NaiveDateTime,
    course: EntriesCourse,
    after: DatabaseModel,
)
    requires
        attachments_resolve(dest),
        entries_merged(dest, source, now, course, after),
    ensures
        attachments_resolve(after),
{
    assert forall|e: EntryId, a: AttachmentId| #[trigger]
        after.entries.contains_key(e) && #[trigger] entry_uses(after.entries[e], a) implies after.attachments.contains_key(
        a,
    ) by {
        if entry_shared(dest, source, e) || entry_created(dest, source, e) {
            assert(source.entries.contains_key(e));
            lemma_import_uses(source.entries[e], course.copies[e], source.attachments, after.attachments);
            if entry_shared(dest, source, e) {
                lemma_reconciled_uses(
                    dest.entries[e],
                    course.copies[e],
                    dest.groups.contains_key(source.entries[e].parent),
                    now,
                    a,
                );
                if entry_uses(dest.entries[e], a) {
                    assert(dest.entries.contains_key(e));
                    assert(dest.attachments.contains_key(a));
                }
            }
        } else {
            assert(dest.entries.contains_key(e));
            assert(entry_uses(dest.entries[e], a));
            assert(dest.attachments.contains_key(a));
        }
    }
}

/// Icons have no bearing on the attachments that an entry uses.
proof fn lemma_retargeted_uses(entry: EntryModel, translation: Translation, a: AttachmentId)
    requires
        entry_uses(retargeted_entry(entry, translation), a),
    ensures
        entry_uses(entry, a),
{
    let shown = retargeted_entry(entry, translation);
    if !shown.attachments.contains_value(a) {
        let i = choose|i: int|
            0 <= i < shown.history->0.len() && (#[trigger] shown.history->0[i]).attachments.contains_value(a);
        assert(entry.history->0[i].attachments.contains_value(a));
    }
}

/// A merge leaves no entry without its attachments, if there was none before.
pub proof fn merged_attachments_resolve(
    dest: DatabaseModel,
    source: DatabaseModel,
    now: NaiveDateTime,
    course: MergeCourse,
    after: DatabaseModel,
)
    requires
        attachments_resolve(dest),
        merged(dest, source, now, course, after),
        histories_fit(after),
    ensures
        attachments_resolve(after),
{
    let middle = course.groups.middle;
    let aligned = aligned_source(course.base, source, course.imports);
    let start = with_new_groups(course.start, aligned);
    lemma_adopted_alike(dest, source, course.translation, course.base);
    assert(attachments_resolve(start)) by {
        assert forall|e: EntryId, a: AttachmentId| #[trigger]
            start.entries.contains_key(e) && #[trigger] entry_uses(start.entries[e], a) implies start.attachments.contains_key(
            a,
        ) by {
            assert(dest.entries.contains_key(e));
            lemma_retargeted_uses(dest.entries[e], course.translation, a);
        }
    }
    lemma_entries_resolve(start, aligned, now, course.groups.entries, middle);
    assert forall|e: EntryId, a: AttachmentId| #[trigger]
        after.entries.contains_key(e) && #[trigger] entry_uses(after.entries[e], a) implies after.attachments.contains_key(
        a,
    ) by {
        let left = course.settled;
        assert(left.entries.contains_key(e));
        assert(middle.entries.contains_key(e));
        assert(after.entries[e] == middle.entries[e]);
        assert(middle.attachments.contains_key(a));
        lemma_use_is_reference(after, e, a);
        let place = choose|place: Place| refers_at(after.entries, place, Reference::Attachment(a));
        assert(refers_at(course.settled.entries, place, Reference::Attachment(a)));
    }
}

/// The images that the destination keeps do not change, nor do the identifiers under which it has
/// them.
pub proof fn own_images_stay(
    dest: DatabaseModel,
    source: DatabaseModel,
    now: NaiveDateTime,
    course: MergeCourse,
    after: DatabaseModel,
    icon: CustomIconId,
)
    requires
        merged(dest, source, now, course, after),
        dest.custom_icons.contains_key(icon),
    ensures
        after.custom_icons.contains_key(icon) <==> icon_referenced(after, icon),
        after.custom_icons.contains_key(icon) ==> after.custom_icons[icon].data == dest.custom_icons[icon].data,
{
    assert(course.base.custom_icons.contains_key(icon));
    assert(course.start.custom_icons.contains_key(icon));
    assert(course.settled.custom_icons.contains_key(icon));
    assert(after.entries == course.settled.entries && after.groups == course.settled.groups);
    assert forall|i: CustomIconId| icon_referenced(after, i) == icon_referenced(course.settled, i) by {}
}

/// What is shown in place of an icon that the source shows is the image that the source has under
/// that identifier, also where the destination has another image under it.
proof fn lemma_image_travels(
    dest: DatabaseModel,
    source: DatabaseModel,
    now: NaiveDateTime,
    course: MergeCourse,
    after: DatabaseModel,
    icon: CustomIconId,
)
    requires
        merged(dest, source, now, course, after),
        icon_referenced(source, icon),
        source.custom_icons.contains_key(icon),
    ensures
        retargeted(Some(Icon::Custom(icon)), course.imports) matches Some(Icon::Custom(j))
            && course.settled.custom_icons.contains_key(j) && course.settled.custom_icons[j].data
            == source.custom_icons[icon].data,
{
    assert(course.imports.contains_key(icon));
    assert(imported_icon(
        icon,
        course.imports[icon],
        course.base.custom_icons,
        course.start.custom_icons,
        source.custom_icons,
    ));
    let j = course.imports[icon]->0;
    assert(course.start.custom_icons.contains_key(j));
    assert(course.settled.custom_icons.contains_key(j));
}

/// An entry that is taken over from the source shows the image that it shows there, also where the
/// destination has another image under the same identifier.
pub proof fn taken_entry_shows_its_image(
    dest: DatabaseModel,
    source: DatabaseModel,
    now: NaiveDateTime,
    course: MergeCourse,
    after: DatabaseModel,
    e: EntryId,
    icon: CustomIconId,
)
    requires
        merged(dest, source, now, course, after),
        source.entries.contains_key(e),
        source.entries[e].icon == Some(Icon::Custom(icon)),
        source.custom_icons.contains_key(icon),
        after.entries.contains_key(e),
        !dest.entries.contains_key(e) || source_modified(source.entries[e]).is_after(
            dest_modified(dest.entries[e], now),
        ),
    ensures
        after.entries[e].icon matches Some(Icon::Custom(j)) && after.custom_icons.contains_key(j)
            && after.custom_icons[j].data == source.custom_icons[icon].data,
{
    let aligned = aligned_source(course.base, source, course.imports);
    let grown = with_new_groups(course.start, aligned);
    let middle = course.groups.middle;
    lemma_adopted_alike(dest, source, course.translation, course.base);
    lemma_alike(course.base, source, course.imports, course.start);
    assert(refers_at(source.entries, (e, None::<usize>), Reference::Icon(icon)));
    assert(icon_referenced(source, icon));
    lemma_image_travels(dest, source, now, course, after, icon);
    assert(aligned.entries.contains_key(e));
    assert(middle.entries.contains_key(e));
    let copy = course.groups.entries.copies[e];
    assert(copy.with_history(None).icon == aligned.entries[e].icon);
    assert(copy.with_history(None).times == aligned.entries[e].times);
    lemma_time_total(source_modified(source.entries[e]), source_modified(source.entries[e]));
    assert(!entry_untouched(course.base, source, e)) by {
        if entry_untouched(course.base, source, e) {
            lemma_time_total(source_modified(source.entries[e]), dest_modified(dest.entries[e], now));
        }
    }
    assert(aligned.entries[e].icon == retargeted(source.entries[e].icon, course.imports));
    if entry_shared(grown, aligned, e) {
        lemma_time_total(source_modified(source.entries[e]), dest_modified(dest.entries[e], now));
        assert(middle.entries[e].icon == copy.icon);
    } else {
        assert(middle.entries[e] == copy);
    }
    let shown = after.entries[e].icon;
    assert(shown == middle.entries[e].icon);
    let j = shown->0->Custom_0;
    assert(refers_at(course.settled.entries, (e, None::<usize>), Reference::Icon(j)));
}

/// A group that is taken over from the source shows the image that it shows there, also where the
/// destination has another image under the same identifier.
pub proof fn taken_group_shows_its_image(
    dest: DatabaseModel,
    source: DatabaseModel,
    now: NaiveDateTime,
    course: MergeCourse,
    after: DatabaseModel,
    g: GroupId,
    icon: CustomIconId,
)
    requires
        merged(dest, source, now, course, after),
        source.groups.contains_key(g),
        source.groups[g].icon == Some(Icon::Custom(icon)),
        source.custom_icons.contains_key(icon),
        after.groups.contains_key(g),
        !dest.groups.contains_key(g) || (source_group_modified(source.groups[g]).is_after(
            dest_group_modified(dest.groups[g], now),
        ) && !group_relocates(dest.groups[g], source.groups[g])),
    ensures
        after.groups[g].icon matches Some(Icon::Custom(j)) && after.custom_icons.contains_key(j)
            && after.custom_icons[j].data == source.custom_icons[icon].data,
{
    let aligned = aligned_source(course.base, source, course.imports);
    let grown = with_new_groups(course.start, aligned);
    lemma_adopted_alike(dest, source, course.translation, course.base);
    lemma_alike(course.base, source, course.imports, course.start);
    assert(shown_by(source.groups, g, icon));
    assert(icon_referenced(source, icon));
    lemma_image_travels(dest, source, now, course, after, icon);
    assert(aligned.groups.contains_key(g));
    assert(grown.groups.contains_key(g));
    assert(!group_untouched(course.base, source, g)) by {
        if group_untouched(course.base, source, g) {
            lemma_time_total(source_group_modified(source.groups[g]), dest_group_modified(dest.groups[g], now));
        }
    }
    assert(aligned.groups[g].icon == retargeted(source.groups[g].icon, course.imports));
    assert(course.settled.groups[g].icon == aligned.groups[g].icon);
    let shown = after.groups[g].icon;
    let j = shown->0->Custom_0;
    assert(shown_by(course.settled.groups, g, j));
}

} // verus!

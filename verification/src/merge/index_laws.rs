//! What an index of references holds, and what is taken over for missing images, in any database.
use vstd::prelude::*;

use crate::datetime::NaiveDateTime;
use crate::db::database::DatabaseModel;
use crate::db::icon::Icon;
use crate::ids::{AttachmentId, CustomIconId, EntryId, GroupId};
use crate::merge::arrivals::is_last_update;
use crate::merge::attachments::indexed_attachments;
use crate::merge::field_laws::{entry_holds, group_holds, ticks, time_goes_on};
use crate::merge::group_wish_laws::{lemma_touched, lemma_touched_at, touched};
use crate::merge::icon_imports::lemma_adopted_alike;
use crate::merge::icons::{
    icon_missing, icon_referenced, icons_adopted, indexed_icons, retargeted_entry, shown_by,
    Translation,
};
use crate::merge::references::{refers_at, Place, Reference};

verus! {

/// A version of an entry, current or archived, has an attachment. The current one is at no position.
pub open spec fn file_at(db: DatabaseModel, e: EntryId, at: Option<usize>, a: AttachmentId) -> bool {
    &&& db.entries.contains_key(e)
    &&& match at {
        None => db.entries[e].attachments.contains_value(a),
        Some(i) => db.entries[e].history is Some && i < db.entries[e].history->0.len()
            && db.entries[e].history->0[i as int].attachments.contains_value(a),
    }
}

/// A version of an entry, current or archived, shows a custom icon.
pub open spec fn image_at(db: DatabaseModel, e: EntryId, at: Option<usize>, icon: CustomIconId) -> bool {
    &&& db.entries.contains_key(e)
    &&& match at {
        None => db.entries[e].icon == Some(Icon::Custom(icon)),
        Some(i) => db.entries[e].history is Some && i < db.entries[e].history->0.len()
            && db.entries[e].history->0[i as int].icon == Some(Icon::Custom(icon)),
    }
}

/// A reference is what it says.
proof fn lemma_file_at(db: DatabaseModel, e: EntryId, at: Option<usize>, a: AttachmentId)
    ensures
        refers_at(db.entries, (e, at), Reference::Attachment(a)) <==> file_at(db, e, at, a),
{
    if file_at(db, e, at, a) {
        let all = match at {
            None => db.entries[e].attachments,
            Some(i) => db.entries[e].history->0[i as int].attachments,
        };
        let name = choose|name: Seq<char>| all.contains_key(name) && all[name] == a;
        assert(all.contains_key(name));
    }
    if refers_at(db.entries, (e, at), Reference::Attachment(a)) {
        let all = match at {
            None => db.entries[e].attachments,
            Some(i) => db.entries[e].history->0[i as int].attachments,
        };
        let name = choose|name: Seq<char>| #[trigger] all.contains_key(name) && all[name] == a;
        assert(all.contains_value(a));
    }
}

/// An attachment is kept exactly if a version of an entry has it. Its data stay, and its index lists
/// exactly the versions that have it.
pub proof fn used_files_are_kept_and_indexed(db: DatabaseModel, a: AttachmentId)
    requires
        db.attachments.contains_key(a),
    ensures
        indexed_attachments(db).contains_key(a) <==> exists|e: EntryId, at: Option<usize>| file_at(db, e, at, a),
        indexed_attachments(db).contains_key(a) ==> {
            let kept = indexed_attachments(db)[a];
            &&& kept.data == db.attachments[a].data
            &&& kept.id == db.attachments[a].id
            &&& forall|e: EntryId, at: Option<usize>| #[trigger]
                kept.entries.contains((e, at)) <==> file_at(db, e, at, a)
        },
{
    assert forall|e: EntryId, at: Option<usize>| refers_at(db.entries, (e, at), Reference::Attachment(a))
        == file_at(db, e, at, a) by {
        lemma_file_at(db, e, at, a);
    }
    if exists|place: Place| refers_at(db.entries, place, Reference::Attachment(a)) {
        let place = choose|place: Place| refers_at(db.entries, place, Reference::Attachment(a));
        assert(refers_at(db.entries, (place.0, place.1), Reference::Attachment(a)));
        assert(file_at(db, place.0, place.1, a));
    }
    if exists|e: EntryId, at: Option<usize>| file_at(db, e, at, a) {
        let (e, at) = choose|e: EntryId, at: Option<usize>| file_at(db, e, at, a);
        assert(refers_at(db.entries, (e, at), Reference::Attachment(a)));
    }
}

/// A custom icon is shown exactly if a version of an entry or a group shows it.
pub proof fn shown_images_are_found(db: DatabaseModel, icon: CustomIconId)
    ensures
        icon_referenced(db, icon) <==> (exists|e: EntryId, at: Option<usize>| image_at(db, e, at, icon)) || (exists|
            g: GroupId,
        | #[trigger] db.groups.contains_key(g) && db.groups[g].icon == Some(Icon::Custom(icon))),
{
    if exists|place: Place| refers_at(db.entries, place, Reference::Icon(icon)) {
        let place = choose|place: Place| refers_at(db.entries, place, Reference::Icon(icon));
        assert(image_at(db, place.0, place.1, icon));
    } else if icon_referenced(db, icon) {
        let g = choose|g: GroupId| shown_by(db.groups, g, icon);
        assert(db.groups.contains_key(g));
    }
    if exists|e: EntryId, at: Option<usize>| image_at(db, e, at, icon) {
        let (e, at) = choose|e: EntryId, at: Option<usize>| image_at(db, e, at, icon);
        assert(refers_at(db.entries, (e, at), Reference::Icon(icon)));
    } else if exists|g: GroupId| #[trigger]
        db.groups.contains_key(g) && db.groups[g].icon == Some(Icon::Custom(icon)) {
        let g = choose|g: GroupId| #[trigger]
            db.groups.contains_key(g) && db.groups[g].icon == Some(Icon::Custom(icon));
        assert(shown_by(db.groups, g, icon));
    }
}

/// A custom icon is kept exactly if it is shown. Its image, its name and its date stay, and its index
/// lists exactly the versions and the groups that show it.
pub proof fn shown_images_are_kept_and_indexed(db: DatabaseModel, icon: CustomIconId)
    requires
        db.custom_icons.contains_key(icon),
    ensures
        indexed_icons(db).contains_key(icon) <==> (exists|e: EntryId, at: Option<usize>| image_at(db, e, at, icon))
            || (exists|g: GroupId| #[trigger]
            db.groups.contains_key(g) && db.groups[g].icon == Some(Icon::Custom(icon))),
        indexed_icons(db).contains_key(icon) ==> {
            let kept = indexed_icons(db)[icon];
            &&& kept.id == db.custom_icons[icon].id
            &&& kept.data == db.custom_icons[icon].data
            &&& kept.name == db.custom_icons[icon].name
            &&& kept.last_modification_time == db.custom_icons[icon].last_modification_time
            &&& forall|e: EntryId, at: Option<usize>| #[trigger]
                kept.entries.contains((e, at)) <==> image_at(db, e, at, icon)
            &&& forall|g: GroupId| #[trigger]
                kept.groups.contains(g) <==> db.groups.contains_key(g) && db.groups[g].icon == Some(
                    Icon::Custom(icon),
                )
        },
{
    shown_images_are_found(db, icon);
}

/// When images that are missing are taken over from another database, nothing changes but icons. What
/// was there stays. An entry that showed an image that is missing shows the image that the other
/// database has under that identifier, or none.
pub proof fn missing_images_are_taken_over(
    before: DatabaseModel,
    source: DatabaseModel,
    translation: Translation,
    after: DatabaseModel,
    e: EntryId,
    g: GroupId,
)
    requires
        icons_adopted(before, source, translation, after),
        before.entries.contains_key(e),
        before.groups.contains_key(g),
    ensures
        after.entries.contains_key(e) && after.groups.contains_key(g),
        entry_holds(after.entries[e], before.entries[e]),
        after.entries[e].id == before.entries[e].id,
        after.entries[e].parent == before.entries[e].parent,
        after.entries[e].times == before.entries[e].times,
        after.entries[e].attachments == before.entries[e].attachments,
        group_holds(after.groups[g], before.groups[g]),
        after.groups[g].id == before.groups[g].id,
        after.groups[g].parent == before.groups[g].parent,
        after.groups[g].times == before.groups[g].times,
        after.groups[g].is_expanded == before.groups[g].is_expanded,
        after.groups[g].last_top_visible_entry == before.groups[g].last_top_visible_entry,
        after.attachments == before.attachments,
        after.deleted_objects == before.deleted_objects,
        after.root == before.root,
        forall|i: CustomIconId| #[trigger]
            before.custom_icons.contains_key(i) ==> after.custom_icons.contains_key(i) && after.custom_icons[i]
                == before.custom_icons[i],
        match before.entries[e].icon {
            Some(Icon::Custom(i)) => if before.custom_icons.contains_key(i) {
                after.entries[e].icon == Some(Icon::Custom(i))
            } else if source.custom_icons.contains_key(i) {
                after.entries[e].icon matches Some(Icon::Custom(j)) && after.custom_icons.contains_key(j)
                    && after.custom_icons[j].data == source.custom_icons[i].data
            } else {
                after.entries[e].icon is None
            },
            icon => after.entries[e].icon == icon,
        },
        match before.groups[g].icon {
            Some(Icon::Custom(i)) => if before.custom_icons.contains_key(i) {
                after.groups[g].icon == Some(Icon::Custom(i))
            } else if source.custom_icons.contains_key(i) {
                after.groups[g].icon matches Some(Icon::Custom(j)) && after.custom_icons.contains_key(j)
                    && after.custom_icons[j].data == source.custom_icons[i].data
            } else {
                after.groups[g].icon is None
            },
            icon => after.groups[g].icon == icon,
        },
{
    lemma_adopted_alike(before, source, translation, after);
    assert(after.entries[e] == retargeted_entry(before.entries[e], translation));
    match before.entries[e].icon {
        Some(Icon::Custom(i)) => {
            assert(refers_at(before.entries, (e, None::<usize>), Reference::Icon(i)));
            assert(icon_referenced(before, i));
            assert(translation.contains_key(i) <==> icon_missing(before, i));
        },
        _ => {},
    }
    match before.groups[g].icon {
        Some(Icon::Custom(i)) => {
            assert(shown_by(before.groups, g, i));
            assert(icon_referenced(before, i));
            assert(translation.contains_key(i) <==> icon_missing(before, i));
        },
        _ => {},
    }
}

/// The last update of a group is the latest change of the group itself, of its entries and of the groups
/// directly below it.
pub proof fn last_update_is_the_latest_touch(db: DatabaseModel, g: GroupId, last: Option<NaiveDateTime>)
    requires
        is_last_update(db, g, last),
    ensures
        match last {
            Some(t) => touched(db, g, ticks(t)) && forall|n: int| #[trigger] touched(db, g, n) ==> n <= ticks(t),
            None => forall|n: int| !#[trigger] touched(db, g, n),
        },
{
    assert forall|n: int| #[trigger] touched(db, g, n) implies last is Some && n <= ticks(last->0) by {
        let u = lemma_touched_at(db, g, n);
        if last is Some {
            time_goes_on(u, last->0);
        }
    }
    if last is Some {
        lemma_touched(db, g, last->0);
    }
}

} // verus!

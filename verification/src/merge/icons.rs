//! Bringing custom icons from one database to another, and the index of who shows them.
use std::collections::HashMap;

use vstd::prelude::*;

use crate::datum::Datum;
use crate::db::database::{lemma_next_unseen, lemma_push_contains, Database, DatabaseModel};
use crate::db::entry::{Entry, EntryModel, History};
use crate::db::group::{Group, GroupModel};
use crate::db::icon::{CustomIcon, CustomIconModel, Icon};
use crate::ids::{CustomIconId, EntryId, GroupId, Uuid};
use crate::merge::group_changes::Groups;
use crate::merge::references::{find_places, places, refers_at, Place, Reference};

verus! {

broadcast use vstd::std_specs::hash::group_hash_axioms;

/// A table of custom icons.
pub type Icons = Map<CustomIconId, CustomIconModel>;

/// A group shows a custom icon.
pub open spec fn shown_by(groups: Groups, g: GroupId, icon: CustomIconId) -> bool {
    groups.contains_key(g) && groups[g].icon == Some(Icon::Custom(icon))
}

/// A version of an entry, or a group, shows a custom icon.
pub open spec fn icon_referenced(db: DatabaseModel, icon: CustomIconId) -> bool {
    ||| exists|place: Place| refers_at(db.entries, place, Reference::Icon(icon))
    ||| exists|g: GroupId| shown_by(db.groups, g, icon)
}

/// A custom icon is shown that the database does not have.
pub open spec fn icon_missing(db: DatabaseModel, icon: CustomIconId) -> bool {
    icon_referenced(db, icon) && !db.custom_icons.contains_key(icon)
}

/// What is to be shown in place of custom icons that the database does not have.
pub type Translation = Map<CustomIconId, Option<CustomIconId>>;

/// The icon that is shown in place of another one.
pub open spec fn retargeted(icon: Option<Icon>, translation: Translation) -> Option<Icon> {
    match icon {
        Some(Icon::Custom(i)) => if translation.contains_key(i) {
            match translation[i] {
                Some(j) => Some(Icon::Custom(j)),
                None => None,
            }
        } else {
            icon
        },
        _ => icon,
    }
}

/// A version of an entry with its icon replaced.
pub open spec fn retargeted_version(e: EntryModel, translation: Translation) -> EntryModel {
    EntryModel { icon: retargeted(e.icon, translation), ..e }
}

/// An entry with its icon replaced, in the current version and in the archived ones.
pub open spec fn retargeted_entry(e: EntryModel, translation: Translation) -> EntryModel {
    EntryModel {
        icon: retargeted(e.icon, translation),
        history: match e.history {
            Some(h) => Some(h.map_values(|v: EntryModel| retargeted_version(v, translation))),
            None => None,
        },
        ..e
    }
}

/// A group with its icon replaced.
pub open spec fn retargeted_group(g: GroupModel, translation: Translation) -> GroupModel {
    GroupModel { icon: retargeted(g.icon, translation), ..g }
}

/// All entries with their icons replaced.
pub open spec fn retargeted_entries(
    entries: Map<EntryId, EntryModel>,
    translation: Translation,
) -> Map<EntryId, EntryModel> {
    Map::new(|e: EntryId| entries.contains_key(e), |e: EntryId| retargeted_entry(entries[e], translation))
}

/// All groups with their icons replaced.
pub open spec fn retargeted_groups(groups: Groups, translation: Translation) -> Groups {
    Map::new(|g: GroupId| groups.contains_key(g), |g: GroupId| retargeted_group(groups[g], translation))
}

/// An icon of another database, before anything in this one shows it.
pub open spec fn adopted_icon(icon: CustomIconModel, id: CustomIconId) -> CustomIconModel {
    CustomIconModel { id, entries: Set::empty(), groups: Set::empty(), ..icon }
}

/// A table of icons after icons of another database were brought in. What was there stays. What
/// is new has its identifier and its image from the other database, and no other icon of the table
/// has that image.
pub open spec fn icons_grown(before: Icons, after: Icons, source: Icons) -> bool {
    &&& forall|i: CustomIconId| #[trigger]
        before.contains_key(i) ==> after.contains_key(i) && after[i] == before[i]
    &&& forall|i: CustomIconId| #[trigger]
        after.contains_key(i) && !before.contains_key(i) ==> source.contains_key(i) && after[i] == adopted_icon(
            source[i],
            i,
        )
    &&& forall|i: CustomIconId, j: CustomIconId| #[trigger]
        after.contains_key(i) && #[trigger] after.contains_key(j) && !before.contains_key(i) && i != j
            ==> after[i].data != after[j].data
}

/// What is shown in place of an icon: the same image, under its own identifier or under that of
/// an icon with the same image; nothing, where the other database does not have the image either.
pub open spec fn translated(icon: CustomIconId, to: Option<CustomIconId>, after: Icons, source: Icons) -> bool {
    match to {
        Some(j) => source.contains_key(icon) && after.contains_key(j) && after[j].data == source[icon].data,
        None => !source.contains_key(icon),
    }
}

/// The destination after it took over the icons that it shows but did not have.
pub open spec fn icons_adopted(
    before: DatabaseModel,
    source: DatabaseModel,
    translation: Translation,
    after: DatabaseModel,
) -> bool {
    &&& forall|i: CustomIconId| #[trigger] translation.contains_key(i) <==> icon_missing(before, i)
    &&& forall|i: CustomIconId| #[trigger]
        translation.contains_key(i) ==> translated(i, translation[i], after.custom_icons, source.custom_icons)
    &&& icons_grown(before.custom_icons, after.custom_icons, source.custom_icons)
    &&& forall|i: CustomIconId| #[trigger]
        after.custom_icons.contains_key(i) && !before.custom_icons.contains_key(i) ==> translation.contains_key(i)
            && translation[i] == Some(i)
    &&& after == DatabaseModel {
        entries: retargeted_entries(before.entries, translation),
        groups: retargeted_groups(before.groups, translation),
        custom_icons: after.custom_icons,
        ..before
    }
}

/// All custom icons that entries, their archived versions and groups show. An icon that is shown
/// several times may be listed several times.
pub fn referenced_custom_icons(db: &Database) -> (icons: Vec<CustomIconId>)
    ensures
        forall|i: CustomIconId| #[trigger] icons@.contains(i) <==> icon_referenced(db@, i),
{
    let ghost d = db@;
    let mut icons: Vec<CustomIconId> = Vec::new();
    let ids: Vec<EntryId> = db.entry_ids();
    let mut i: usize = 0;
    while i < ids.len()
        invariant
            i <= ids@.len(),
            d == db@,
            forall|e: EntryId| #[trigger] ids@.contains(e) <==> d.entries.contains_key(e),
            forall|c: CustomIconId| #[trigger]
                icons@.contains(c) <==> exists|place: Place|
                    ids@.take(i as int).contains(place.0) && #[trigger] refers_at(
                        d.entries,
                        place,
                        Reference::Icon(c),
                    ),
        decreases ids@.len() - i,
    {
        let id = ids[i];
        let ghost seen = ids@.take(i as int);
        let ghost before = icons@;
        proof {
            assert(ids@.contains(ids@[i as int]));
            assert(ids@.take(i + 1) =~= seen.push(id));
            lemma_push_contains(seen, id);
        }
        match db.entry(id) {
            Some(entry) => {
                proof {
                    entry.lemma_history();
                }
                match entry.icon {
                    Some(Icon::Custom(c)) => {
                        proof {
                            lemma_push_contains(icons@, c);
                        }
                        icons.push(c);
                    },
                    _ => {},
                }
                assert forall|c: CustomIconId| #[trigger] icons@.contains(c) <==> before.contains(c) || exists|
                    position: Option<usize>,
                |
                    position is None && #[trigger] refers_at(d.entries, (id, position), Reference::Icon(c)) by {
                    if icons@.contains(c) && !before.contains(c) {
                        assert(refers_at(d.entries, (id, None::<usize>), Reference::Icon(c)));
                    }
                }
                match &entry.history {
                    Some(history) => {
                        let mut j: usize = 0;
                        while j < history.entries.len()
                            invariant
                                j <= history.entries@.len(),
                                d.entries.contains_key(id),
                                d.entries[id].history == Some(history.deep_view()),
                                forall|c: CustomIconId| #[trigger]
                                    icons@.contains(c) <==> before.contains(c) || exists|position: Option<usize>|
                                        (position is None || position->0 < j) && #[trigger] refers_at(
                                            d.entries,
                                            (id, position),
                                            Reference::Icon(c),
                                        ),
                            decreases history.entries@.len() - j,
                        {
                            let ghost listed = icons@;
                            assert(history.deep_view()[j as int] == history.entries@[j as int].deep_view());
                            match history.entries[j].icon {
                                Some(Icon::Custom(c)) => {
                                    proof {
                                        lemma_push_contains(icons@, c);
                                        assert(refers_at(d.entries, (id, Some(j)), Reference::Icon(c)));
                                    }
                                    icons.push(c);
                                },
                                _ => {},
                            }
                            assert forall|c: CustomIconId| #[trigger] icons@.contains(c) <==> before.contains(c)
                                || exists|position: Option<usize>|
                                (position is None || position->0 < j + 1) && #[trigger] refers_at(
                                    d.entries,
                                    (id, position),
                                    Reference::Icon(c),
                                ) by {
                                if listed.contains(c) && !before.contains(c) {
                                    let position = choose|position: Option<usize>|
                                        (position is None || position->0 < j) && #[trigger] refers_at(
                                            d.entries,
                                            (id, position),
                                            Reference::Icon(c),
                                        );
                                    assert(refers_at(d.entries, (id, position), Reference::Icon(c)));
                                }
                                if exists|position: Option<usize>|
                                    (position is None || position->0 < j + 1) && #[trigger] refers_at(
                                        d.entries,
                                        (id, position),
                                        Reference::Icon(c),
                                    ) {
                                    let position = choose|position: Option<usize>|
                                        (position is None || position->0 < j + 1) && #[trigger] refers_at(
                                            d.entries,
                                            (id, position),
                                            Reference::Icon(c),
                                        );
                                    if position is None || position->0 < j {
                                        assert(listed.contains(c));
                                    }
                                }
                            }
                            j = j + 1;
                        }
                    },
                    None => {},
                }
            },
            None => {},
        }
        assert forall|c: CustomIconId| #[trigger] icons@.contains(c) <==> exists|place: Place|
            ids@.take(i + 1).contains(place.0) && #[trigger] refers_at(d.entries, place, Reference::Icon(c)) by {
            if before.contains(c) {
                let place = choose|place: Place|
                    seen.contains(place.0) && #[trigger] refers_at(d.entries, place, Reference::Icon(c));
                assert(ids@.take(i + 1).contains(place.0));
            } else if icons@.contains(c) {
                let position = choose|position: Option<usize>| #[trigger]
                    refers_at(d.entries, (id, position), Reference::Icon(c));
                assert(refers_at(d.entries, (id, position), Reference::Icon(c)));
                assert(ids@.take(i + 1).contains((id, position).0));
            }
            if exists|place: Place|
                ids@.take(i + 1).contains(place.0) && #[trigger] refers_at(d.entries, place, Reference::Icon(c)) {
                let place = choose|place: Place|
                    ids@.take(i + 1).contains(place.0) && #[trigger] refers_at(
                        d.entries,
                        place,
                        Reference::Icon(c),
                    );
                if seen.contains(place.0) {
                    assert(before.contains(c));
                } else {
                    assert(place == (id, place.1));
                    assert(refers_at(d.entries, (id, place.1), Reference::Icon(c)));
                }
            }
        }
        i = i + 1;
    }
    assert(ids@.take(ids@.len() as int) =~= ids@);
    let ghost from_entries = icons@;
    assert forall|c: CustomIconId| #[trigger] from_entries.contains(c) <==> exists|place: Place|
        refers_at(d.entries, place, Reference::Icon(c)) by {
        if exists|place: Place| refers_at(d.entries, place, Reference::Icon(c)) {
            let place = choose|place: Place| refers_at(d.entries, place, Reference::Icon(c));
            assert(ids@.contains(place.0) && refers_at(d.entries, place, Reference::Icon(c)));
        }
    }
    let groups: Vec<GroupId> = db.group_ids();
    let mut i: usize = 0;
    assert(groups@.take(0) =~= Seq::<GroupId>::empty());
    while i < groups.len()
        invariant
            i <= groups@.len(),
            d == db@,
            forall|g: GroupId| #[trigger] groups@.contains(g) <==> d.groups.contains_key(g),
            forall|c: CustomIconId| #[trigger]
                icons@.contains(c) <==> from_entries.contains(c) || exists|g: GroupId|
                    groups@.take(i as int).contains(g) && #[trigger] shown_by(d.groups, g, c),
        decreases groups@.len() - i,
    {
        let id = groups[i];
        let ghost seen = groups@.take(i as int);
        let ghost before = icons@;
        proof {
            assert(groups@.contains(groups@[i as int]));
            assert(groups@.take(i + 1) =~= seen.push(id));
            lemma_push_contains(seen, id);
        }
        match db.group(id) {
            Some(group) => match group.icon {
                Some(Icon::Custom(c)) => {
                    proof {
                        lemma_push_contains(icons@, c);
                        assert(shown_by(d.groups, id, c));
                    }
                    icons.push(c);
                },
                _ => {},
            },
            None => {},
        }
        assert forall|c: CustomIconId| #[trigger] icons@.contains(c) <==> from_entries.contains(c) || exists|g: GroupId|
            groups@.take(i + 1).contains(g) && #[trigger] shown_by(d.groups, g, c) by {
            if before.contains(c) && !from_entries.contains(c) {
                let g = choose|g: GroupId| seen.contains(g) && #[trigger] shown_by(d.groups, g, c);
                assert(groups@.take(i + 1).contains(g));
            }
            if exists|g: GroupId| groups@.take(i + 1).contains(g) && #[trigger] shown_by(d.groups, g, c) {
                let g = choose|g: GroupId| groups@.take(i + 1).contains(g) && #[trigger] shown_by(d.groups, g, c);
                if seen.contains(g) {
                    assert(before.contains(c));
                }
            }
        }
        i = i + 1;
    }
    proof {
        assert(groups@.take(groups@.len() as int) =~= groups@);
        assert forall|c: CustomIconId| #[trigger] icons@.contains(c) <==> icon_referenced(d, c) by {
            if exists|g: GroupId| shown_by(d.groups, g, c) {
                let g = choose|g: GroupId| shown_by(d.groups, g, c);
                assert(groups@.contains(g) && shown_by(d.groups, g, c));
            }
        }
    }
    icons
}

/// A translation, from the table that holds it.
pub open spec fn translation_of(table: Map<Uuid, Option<CustomIconId>>) -> Translation {
    Map::new(|i: CustomIconId| table.contains_key(i.uuid), |i: CustomIconId| table[i.uuid])
}

/// The first identifier of an icon with the given image, if the database has one.
pub(crate) fn find_image(db: &Database, data: &Vec<u8>) -> (found: Option<CustomIconId>)
    ensures
        match found {
            Some(i) => db@.custom_icons.contains_key(i) && db@.custom_icons[i].data == data@ && forall|
                b: CustomIconId,
            | #[trigger]
                db@.custom_icons.contains_key(b) && db@.custom_icons[b].data == data@ ==> i.uuid <= b.uuid,
            None => forall|i: CustomIconId| #[trigger]
                db@.custom_icons.contains_key(i) ==> db@.custom_icons[i].data != data@,
        },
{
    let ghost icons = db@.custom_icons;
    let ids: Vec<CustomIconId> = db.custom_icon_ids();
    let mut found: Option<CustomIconId> = None;
    let mut i: usize = 0;
    while i < ids.len()
        invariant
            i <= ids@.len(),
            icons == db@.custom_icons,
            forall|c: CustomIconId| #[trigger] ids@.contains(c) <==> icons.contains_key(c),
            found matches Some(c) ==> icons.contains_key(c) && icons[c].data == data@,
            forall|j: int|
                0 <= j < i && icons[#[trigger] ids@[j]].data == data@ ==> found is Some && found->0.uuid
                    <= ids@[j].uuid,
        decreases ids@.len() - i,
    {
        assert(ids@.contains(ids@[i as int]));
        match db.custom_icon(ids[i]) {
            Some(known) => {
                assert(known.data.deep_view() =~= known.data@);
                assert(data.deep_view() =~= data@);
                if known.data.same(data) {
                    let is_first: bool = match found {
                        Some(c) => ids[i].uuid < c.uuid,
                        None => true,
                    };
                    if is_first {
                        found = Some(ids[i]);
                    }
                }
            },
            None => {},
        }
        i = i + 1;
    }
    assert forall|c: CustomIconId| #[trigger] icons.contains_key(c) && icons[c].data == data@ implies found is Some
        && found->0.uuid <= c.uuid by {
        assert(ids@.contains(c));
        let j = choose|j: int| 0 <= j < ids@.len() && ids@[j] == c;
        assert(icons[ids@[j]].data == data@);
    }
    found
}

/// Brings an icon of another database into one that does not have its identifier.
fn share_icon(dest: &mut Database, icon: &CustomIcon) -> (id: CustomIconId)
    requires
        old(dest)@.wf(),
        !old(dest)@.custom_icons.contains_key(icon.id),
    ensures
        final(dest)@.wf(),
        final(dest)@ == (DatabaseModel { custom_icons: final(dest)@.custom_icons, ..old(dest)@ }),
        final(dest)@.custom_icons.contains_key(id),
        final(dest)@.custom_icons[id].data == icon.data@,
        old(dest)@.custom_icons.contains_key(id) ==> final(dest)@ == old(dest)@,
        !old(dest)@.custom_icons.contains_key(id) ==> id == icon.id && final(dest)@.custom_icons
            == old(dest)@.custom_icons.insert(id, adopted_icon(icon.deep_view(), id)) && forall|i: CustomIconId| #[trigger]
            old(dest)@.custom_icons.contains_key(i) ==> old(dest)@.custom_icons[i].data != icon.data@,
{
    match find_image(dest, &icon.data) {
        Some(id) => id,
        None => {
            // The identifier is kept, so that two versions of a database come to the same table.
            let data: Vec<u8> = icon.data.duplicate();
            assert(data@ =~= data.deep_view());
            assert(icon.data@ =~= icon.data.deep_view());
            let adopted = CustomIcon {
                id: icon.id,
                entries: Vec::new(),
                groups: Vec::new(),
                data,
                name: icon.name.duplicate(),
                last_modification_time: icon.last_modification_time,
            };
            assert(adopted.deep_view().entries =~= Set::<Place>::empty());
            assert(adopted.deep_view().groups =~= Set::<GroupId>::empty());
            dest.put_custom_icon(adopted);
            assert(dest@.tree() == old(dest)@.tree());
            icon.id
        },
    }
}

/// The icon that is shown in place of another one.
fn retarget(icon: Option<Icon>, table: &HashMap<Uuid, Option<CustomIconId>>) -> (shown: Option<Icon>)
    ensures
        shown == retargeted(icon, translation_of(table@)),
{
    match icon {
        Some(Icon::Custom(i)) => match table.get(&i.uuid) {
            Some(Some(j)) => Some(Icon::Custom(*j)),
            Some(None) => None,
            None => icon,
        },
        _ => icon,
    }
}

/// Replaces the icons of an entry and of its archived versions.
fn retarget_entry(entry: &Entry, table: &HashMap<Uuid, Option<CustomIconId>>) -> (shown: Entry)
    ensures
        shown.deep_view() == retargeted_entry(entry.deep_view(), translation_of(table@)),
{
    let ghost translation = translation_of(table@);
    let mut shown: Entry = entry.clone();
    shown.icon = retarget(entry.icon, table);
    proof {
        entry.lemma_history();
    }
    let history: Option<History> = match &entry.history {
        Some(history) => {
            let mut entries: Vec<Entry> = Vec::new();
            let mut i: usize = 0;
            while i < history.entries.len()
                invariant
                    i <= history.entries@.len(),
                    entries@.len() == i,
                    translation == translation_of(table@),
                    forall|j: int|
                        0 <= j < i ==> (#[trigger] entries@[j]).deep_view() == retargeted_version(
                            history.entries@[j].deep_view(),
                            translation,
                        ),
                decreases history.entries@.len() - i,
            {
                let mut version: Entry = history.entries[i].clone();
                let ghost copy = version;
                version.icon = retarget(version.icon, table);
                proof {
                    copy.lemma_history();
                    version.lemma_history();
                }
                entries.push(version);
                i = i + 1;
            }
            let shown_history = History { entries };
            assert(shown_history.deep_view() =~= history.deep_view().map_values(
                |v: EntryModel| retargeted_version(v, translation),
            ));
            Some(shown_history)
        },
        None => None,
    };
    shown.history = history;
    proof {
        shown.lemma_history();
    }
    shown
}

/// Nothing is replaced where nothing is translated.
pub proof fn lemma_nothing_retargeted(db: DatabaseModel, translation: Translation)
    requires
        forall|i: CustomIconId| !#[trigger] translation.contains_key(i),
    ensures
        retargeted_entries(db.entries, translation) == db.entries,
        retargeted_groups(db.groups, translation) == db.groups,
{
    assert forall|e: EntryId| db.entries.contains_key(e) implies retargeted_entry(db.entries[e], translation)
        == db.entries[e] by {
        if db.entries[e].history is Some {
            assert(db.entries[e].history->0.map_values(|v: EntryModel| retargeted_version(v, translation))
                =~= db.entries[e].history->0);
        }
    }
    assert(retargeted_entries(db.entries, translation) =~= db.entries);
    assert(retargeted_groups(db.groups, translation) =~= db.groups);
}

/// A database that has all icons that it shows takes over none.
pub proof fn lemma_nothing_to_adopt(
    dest: DatabaseModel,
    source: DatabaseModel,
    translation: Translation,
    base: DatabaseModel,
)
    requires
        forall|i: CustomIconId| !#[trigger] icon_missing(dest, i),
        icons_adopted(dest, source, translation, base),
    ensures
        base == dest,
        forall|i: CustomIconId| !#[trigger] translation.contains_key(i),
{
    assert forall|i: CustomIconId| !#[trigger] translation.contains_key(i) by {
        assert(!icon_missing(dest, i));
    }
    lemma_nothing_retargeted(dest, translation);
    assert(base.custom_icons =~= dest.custom_icons);
}

/// Replaces the icons of all entries.
pub(crate) fn retarget_entries(db: &mut Database, table: &HashMap<Uuid, Option<CustomIconId>>)
    requires
        old(db)@.wf(),
    ensures
        final(db)@.wf(),
        final(db)@ == (DatabaseModel {
            entries: retargeted_entries(old(db)@.entries, translation_of(table@)),
            ..old(db)@
        }),
{
    let ghost before = db@;
    let ghost target = retargeted_entries(before.entries, translation_of(table@));
    let ids: Vec<EntryId> = db.entry_ids();
    let mut i: usize = 0;
    while i < ids.len()
        invariant
            i <= ids@.len(),
            ids@.no_duplicates(),
            before.wf(),
            target == retargeted_entries(before.entries, translation_of(table@)),
            forall|e: EntryId| #[trigger] ids@.contains(e) <==> before.entries.contains_key(e),
            db@.wf(),
            db@ == (DatabaseModel { entries: db@.entries, ..before }),
            forall|e: EntryId| #[trigger] db@.entries.contains_key(e) <==> before.entries.contains_key(e),
            forall|e: EntryId| #[trigger]
                db@.entries.contains_key(e) ==> db@.entries[e] == if ids@.take(i as int).contains(e) {
                    target[e]
                } else {
                    before.entries[e]
                },
        decreases ids@.len() - i,
    {
        let id = ids[i];
        proof {
            lemma_next_unseen(ids@, i as int);
            assert(before.entries[id].id == id);
        }
        let shown: Option<Entry> = match db.entry(id) {
            Some(entry) => Some(retarget_entry(entry, table)),
            None => None,
        };
        match shown {
            Some(entry) => {
                db.put_entry(entry);
                assert(db@.tree() == before.tree());
            },
            None => {},
        }
        i = i + 1;
    }
    proof {
        assert(ids@.take(ids@.len() as int) =~= ids@);
        assert(db@.entries =~= target);
    }
}

/// Replaces the icons of all groups.
pub(crate) fn retarget_groups(db: &mut Database, table: &HashMap<Uuid, Option<CustomIconId>>)
    requires
        old(db)@.wf(),
    ensures
        final(db)@.wf(),
        final(db)@ == (DatabaseModel {
            groups: retargeted_groups(old(db)@.groups, translation_of(table@)),
            ..old(db)@
        }),
{
    let ghost before = db@;
    let ghost target = retargeted_groups(before.groups, translation_of(table@));
    let ids: Vec<GroupId> = db.group_ids();
    let mut i: usize = 0;
    while i < ids.len()
        invariant
            i <= ids@.len(),
            ids@.no_duplicates(),
            before.wf(),
            target == retargeted_groups(before.groups, translation_of(table@)),
            forall|g: GroupId| #[trigger] ids@.contains(g) <==> before.groups.contains_key(g),
            db@.wf(),
            db@ == (DatabaseModel { groups: db@.groups, ..before }),
            forall|g: GroupId| #[trigger] db@.groups.contains_key(g) <==> before.groups.contains_key(g),
            forall|g: GroupId| #[trigger]
                db@.groups.contains_key(g) ==> db@.groups[g] == if ids@.take(i as int).contains(g) {
                    target[g]
                } else {
                    before.groups[g]
                },
        decreases ids@.len() - i,
    {
        let id = ids[i];
        let ghost mid = db@;
        proof {
            lemma_next_unseen(ids@, i as int);
            assert(before.groups[id].id == id);
        }
        let shown: Option<Group> = match db.group(id) {
            Some(group) => {
                let mut group: Group = group.clone();
                group.icon = retarget(group.icon, table);
                Some(group)
            },
            None => None,
        };
        match shown {
            Some(group) => {
                db.put_group(group);
                assert(db@.tree() =~= mid.tree());
            },
            None => {},
        }
        i = i + 1;
    }
    proof {
        assert(ids@.take(ids@.len() as int) =~= ids@);
        assert(db@.groups =~= target);
    }
}

/// Copies every custom icon that the destination shows but does not have from the source.
///
/// This is the first step of a merge, for what the destination itself showed without having it; what
/// the source shows is brought in next, by `align_custom_icons`. The identifier in the source is kept,
/// unless the destination has the same image already; then that one is shown. An icon that the
/// source does not have either is no longer shown.
pub fn adopt_source_custom_icons(dest: &mut Database, source: &Database)
    requires
        old(dest)@.wf(),
        source@.wf(),
    ensures
        final(dest)@.wf(),
        exists|translation: Translation| #[trigger] icons_adopted(old(dest)@, source@, translation, final(dest)@),
{
    let ghost before = dest@;
    let ghost s = source@.custom_icons;
    let icons: Vec<CustomIconId> = referenced_custom_icons(dest);
    let mut table: HashMap<Uuid, Option<CustomIconId>> = HashMap::new();
    let mut any: bool = false;
    let mut i: usize = 0;
    while i < icons.len()
        invariant
            i <= icons@.len(),
            before == old(dest)@,
            source@.wf(),
            s == source@.custom_icons,
            forall|c: CustomIconId| #[trigger] icons@.contains(c) <==> icon_referenced(before, c),
            dest@.wf(),
            dest@ == (DatabaseModel { custom_icons: dest@.custom_icons, ..before }),
            icons_grown(before.custom_icons, dest@.custom_icons, s),
            forall|c: CustomIconId| #[trigger]
                translation_of(table@).contains_key(c) <==> icons@.take(i as int).contains(c)
                    && !before.custom_icons.contains_key(c),
            forall|c: CustomIconId| #[trigger]
                translation_of(table@).contains_key(c) ==> translated(
                    c,
                    translation_of(table@)[c],
                    dest@.custom_icons,
                    s,
                ),
            forall|c: CustomIconId| #[trigger]
                dest@.custom_icons.contains_key(c) && !before.custom_icons.contains_key(c) ==> translation_of(
                    table@,
                ).contains_key(c) && translation_of(table@)[c] == Some(c),
            !any ==> forall|c: CustomIconId| !#[trigger] translation_of(table@).contains_key(c),
        decreases icons@.len() - i,
    {
        let id = icons[i];
        let ghost seen = icons@.take(i as int);
        let ghost mid = dest@.custom_icons;
        let ghost old_table = table@;
        proof {
            assert(icons@.take(i + 1) =~= seen.push(id));
            lemma_push_contains(seen, id);
        }
        if dest.custom_icon(id).is_none() && !table.contains_key(&id.uuid) {
            proof {
                assert(!translation_of(old_table).contains_key(id));
                assert(!before.custom_icons.contains_key(id));
                assert(!seen.contains(id));
            }
            let shown: Option<CustomIconId> = match source.custom_icon(id) {
                Some(icon) => {
                    assert(s[id].id == id);
                    Some(share_icon(dest, icon))
                },
                None => None,
            };
            table.insert(id.uuid, shown);
            any = true;
            proof {
                assert forall|c: CustomIconId| c != id implies c.uuid != id.uuid by {}
                assert(translation_of(table@) =~= translation_of(old_table).insert(id, shown));
                assert forall|c: CustomIconId| #[trigger] mid.contains_key(c) implies dest@.custom_icons.contains_key(c)
                    && dest@.custom_icons[c] == mid[c] by {}
                assert forall|c: CustomIconId| #[trigger] translation_of(table@).contains_key(c) implies translated(
                    c,
                    translation_of(table@)[c],
                    dest@.custom_icons,
                    s,
                ) by {
                    if c != id {
                        assert(translated(c, translation_of(old_table)[c], mid, s));
                    }
                }
            }
        } else {
            proof {
                if table@.contains_key(id.uuid) {
                    assert(translation_of(table@).contains_key(id));
                }
                assert(icons@.take(i + 1).contains(id));
            }
        }
        i = i + 1;
    }
    proof {
        assert(icons@.take(icons@.len() as int) =~= icons@);
        assert(dest@.entries == before.entries);
        if !any {
            lemma_nothing_retargeted(before, translation_of(table@));
        }
    }
    let ghost grown = dest@.custom_icons;
    if any {
        retarget_entries(dest, &table);
        retarget_groups(dest, &table);
    }
    proof {
        let translation = translation_of(table@);
        assert forall|c: CustomIconId| #[trigger] translation.contains_key(c) <==> icon_missing(before, c) by {
            assert(icons@.contains(c) <==> icon_referenced(before, c));
        }
        assert(icons_adopted(before, source@, translation, dest@));
    }
}

/// All groups that show a custom icon.
pub open spec fn showing_groups(groups: Groups, icon: CustomIconId) -> Set<GroupId> {
    Set::new(|g: GroupId| shown_by(groups, g, icon))
}

/// The custom icons that are shown, with all places that show them.
pub open spec fn indexed_icons(db: DatabaseModel) -> Icons {
    Map::new(
        |i: CustomIconId| db.custom_icons.contains_key(i) && icon_referenced(db, i),
        |i: CustomIconId|
            CustomIconModel {
                entries: places(db.entries, Reference::Icon(i)),
                groups: showing_groups(db.groups, i),
                ..db.custom_icons[i]
            },
    )
}

/// All groups of a database that show a custom icon.
fn find_groups(db: &Database, icon: CustomIconId) -> (found: Vec<GroupId>)
    ensures
        found@.to_set() == showing_groups(db@.groups, icon),
        found@.len() == 0 <==> (forall|g: GroupId| !shown_by(db@.groups, g, icon)),
{
    let ghost d = db@;
    let ids: Vec<GroupId> = db.group_ids();
    let mut found: Vec<GroupId> = Vec::new();
    let mut i: usize = 0;
    while i < ids.len()
        invariant
            i <= ids@.len(),
            d == db@,
            forall|g: GroupId| #[trigger] ids@.contains(g) <==> d.groups.contains_key(g),
            forall|g: GroupId| #[trigger]
                found@.contains(g) <==> ids@.take(i as int).contains(g) && shown_by(d.groups, g, icon),
        decreases ids@.len() - i,
    {
        let id = ids[i];
        proof {
            assert(ids@.contains(ids@[i as int]));
            assert(ids@.take(i + 1) =~= ids@.take(i as int).push(id));
            lemma_push_contains(ids@.take(i as int), id);
            lemma_push_contains(found@, id);
        }
        let shows = match db.group(id) {
            Some(group) => match group.icon {
                Some(Icon::Custom(c)) => c == icon,
                _ => false,
            },
            None => false,
        };
        if shows {
            found.push(id);
        }
        i = i + 1;
    }
    assert(ids@.take(ids@.len() as int) =~= ids@);
    proof {
        assert forall|g: GroupId| found@.contains(g) <==> shown_by(d.groups, g, icon) by {
            if shown_by(d.groups, g, icon) {
                assert(ids@.contains(g));
            }
        }
        assert(found@.to_set() =~= showing_groups(db@.groups, icon));
        if found@.len() > 0 {
            assert(found@.contains(found@[0]));
            assert(shown_by(db@.groups, found@[0], icon));
        } else {
            assert forall|g: GroupId| !shown_by(db@.groups, g, icon) by {
                assert(!found@.contains(g));
            }
        }
    }
    found
}

/// Records for every custom icon which places show it, and drops the icons that nothing shows.
pub fn rebuild_custom_icon_references(db: &mut Database)
    requires
        old(db)@.wf(),
    ensures
        final(db)@ == (DatabaseModel { custom_icons: indexed_icons(old(db)@), ..old(db)@ }),
        final(db)@.wf(),
{
    let ids: Vec<CustomIconId> = db.custom_icon_ids();
    let ghost before = db@;
    let ghost target = indexed_icons(before);
    let mut i: usize = 0;
    while i < ids.len()
        invariant
            i <= ids@.len(),
            ids@.no_duplicates(),
            before == old(db)@,
            before.wf(),
            target == indexed_icons(before),
            forall|c: CustomIconId| #[trigger] ids@.contains(c) <==> before.custom_icons.contains_key(c),
            db@ == (DatabaseModel { custom_icons: db@.custom_icons, ..before }),
            forall|c: CustomIconId| #[trigger]
                db@.custom_icons.contains_key(c) <==> if ids@.take(i as int).contains(c) {
                    target.contains_key(c)
                } else {
                    before.custom_icons.contains_key(c)
                },
            forall|c: CustomIconId| #[trigger]
                db@.custom_icons.contains_key(c) ==> db@.custom_icons[c] == if ids@.take(i as int).contains(c) {
                    target[c]
                } else {
                    before.custom_icons[c]
                },
        decreases ids@.len() - i,
    {
        let id = ids[i];
        let ghost mid = db@;
        proof {
            lemma_next_unseen(ids@, i as int);
        }
        let entries = find_places(db, Reference::Icon(id));
        let groups = find_groups(db, id);
        let ghost used = entries@.len() > 0 || groups@.len() > 0;
        let taken = db.take_custom_icon(id);
        match taken {
            Some(icon) => {
                if entries.len() > 0 || groups.len() > 0 {
                    let mut icon: CustomIcon = icon;
                    icon.entries = entries;
                    icon.groups = groups;
                    db.put_custom_icon(icon);
                }
            },
            None => {},
        }
        proof {
            assert(before.custom_icons[id].id == id);
            assert(target.contains_key(id) <==> used);
            assert(db@.custom_icons =~= if used {
                mid.custom_icons.insert(id, target[id])
            } else {
                mid.custom_icons.remove(id)
            });
        }
        i = i + 1;
    }
    proof {
        assert(ids@.take(ids@.len() as int) =~= ids@);
        assert(db@.custom_icons =~= target);
        assert(db@.tree() == before.tree());
    }
}

impl Database {
    /// Drops the custom icons that nothing shows.
    pub fn prune_unused_custom_icons(&mut self)
        requires
            old(self)@.wf(),
        ensures
            final(self)@ == (DatabaseModel { custom_icons: indexed_icons(old(self)@), ..old(self)@ }),
            final(self)@.wf(),
    {
        rebuild_custom_icon_references(self);
    }
}

} // verus!

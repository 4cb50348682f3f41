//! Custom icons of the source under the identifiers that the destination has for them.
use std::collections::HashMap;

use vstd::prelude::*;

use crate::datetime::NaiveDateTime;
use crate::datum::Datum;
use crate::db::database::{
    histories_fit, lemma_next_unseen, lemma_push_contains, Database, DatabaseModel,
};
use crate::db::entry::{Entry, EntryModel};
use crate::db::group::{Group, GroupModel};
use crate::db::icon::CustomIcon;
use crate::ids::{AttachmentId, CustomIconId, EntryId, GroupId, Uuid};
use crate::merge::arrivals::{changed_at, climbs, group_created, group_wanted};
use crate::merge::attachments::entry_uses;
use crate::merge::icons::{
    adopted_icon, find_image, icon_referenced, icons_adopted, referenced_custom_icons, retarget_entries,
    retarget_groups, retargeted_entry, retargeted_group, translation_of, Icons, Translation,
};
use crate::merge::references::Place;

verus! {

broadcast use vstd::std_specs::hash::group_hash_axioms;

/// What stands in the destination for an icon that the source shows: an icon with the same image,
/// the one under the same identifier where that has it, and otherwise the first one that the
/// destination had, if any. An icon without an image in the source stands for what the destination
/// has under its identifier, or for nothing.
pub open spec fn imported_icon(
    icon: CustomIconId,
    to: Option<CustomIconId>,
    before: Icons,
    after: Icons,
    source: Icons,
) -> bool {
    match to {
        Some(j) => if source.contains_key(icon) {
            &&& after.contains_key(j)
            &&& after[j].data == source[icon].data
            &&& if before.contains_key(icon) && before[icon].data == source[icon].data {
                j == icon
            } else {
                forall|b: CustomIconId| #[trigger]
                    before.contains_key(b) && before[b].data == source[icon].data ==> j.uuid <= b.uuid
            }
        } else {
            j == icon && before.contains_key(icon)
        },
        None => !source.contains_key(icon) && !before.contains_key(icon),
    }
}

/// An icon of the source is kept under an identifier: under its own or, where the destination has
/// another image under that, under one that nothing had.
pub open spec fn brought_as(
    icon: CustomIconId,
    id: CustomIconId,
    before: Icons,
    after: Icons,
    source: Icons,
    imports: Translation,
) -> bool {
    &&& source.contains_key(icon)
    &&& imports.contains_key(icon)
    &&& imports[icon] == Some(id)
    &&& after[id] == adopted_icon(source[icon], id)
    &&& id == icon || (before.contains_key(icon) && !source.contains_key(id))
}

/// A table of icons after icons of the source were brought in. What was there stays. What is new
/// is an icon of the source, and no other icon of the table has its image.
pub open spec fn icons_brought(before: Icons, after: Icons, source: Icons, imports: Translation) -> bool {
    &&& forall|i: CustomIconId| #[trigger]
        before.contains_key(i) ==> after.contains_key(i) && after[i] == before[i]
    &&& forall|i: CustomIconId| #[trigger]
        after.contains_key(i) && !before.contains_key(i) ==> exists|from: CustomIconId| #[trigger]
            brought_as(from, i, before, after, source, imports)
    &&& forall|i: CustomIconId, j: CustomIconId| #[trigger]
        after.contains_key(i) && #[trigger] after.contains_key(j) && !before.contains_key(i) && i != j
            ==> after[i].data != after[j].data
}

/// Both databases have the entry, dated alike and with the same icon.
pub open spec fn entry_untouched(dest: DatabaseModel, source: DatabaseModel, e: EntryId) -> bool {
    &&& dest.entries.contains_key(e)
    &&& dest.entries[e].times.last_modification is Some
    &&& dest.entries[e].times.last_modification == source.entries[e].times.last_modification
    &&& dest.entries[e].icon == source.entries[e].icon
}

/// Both databases have the group, dated alike and with the same icon.
pub open spec fn group_untouched(dest: DatabaseModel, source: DatabaseModel, g: GroupId) -> bool {
    &&& dest.groups.contains_key(g)
    &&& dest.groups[g].times.last_modification is Some
    &&& dest.groups[g].times.last_modification == source.groups[g].times.last_modification
    &&& dest.groups[g].icon == source.groups[g].icon
}

/// An entry of the source with the icons that stand for its own. One that was not touched shows
/// what it shows in the destination.
pub open spec fn aligned_entry(
    dest: DatabaseModel,
    source: DatabaseModel,
    imports: Translation,
    e: EntryId,
) -> EntryModel {
    let shown = retargeted_entry(source.entries[e], imports);
    if entry_untouched(dest, source, e) {
        EntryModel { icon: source.entries[e].icon, ..shown }
    } else {
        shown
    }
}

/// A group of the source with the icon that stands for its own. One that was not touched shows
/// what it shows in the destination.
pub open spec fn aligned_group(
    dest: DatabaseModel,
    source: DatabaseModel,
    imports: Translation,
    g: GroupId,
) -> GroupModel {
    if group_untouched(dest, source, g) {
        source.groups[g]
    } else {
        retargeted_group(source.groups[g], imports)
    }
}

/// The source with the icons that stand for its own.
pub open spec fn aligned_source(dest: DatabaseModel, source: DatabaseModel, imports: Translation) -> DatabaseModel {
    DatabaseModel {
        entries: Map::new(
            |e: EntryId| source.entries.contains_key(e),
            |e: EntryId| aligned_entry(dest, source, imports, e),
        ),
        groups: Map::new(
            |g: GroupId| source.groups.contains_key(g),
            |g: GroupId| aligned_group(dest, source, imports, g),
        ),
        ..source
    }
}

/// The icons of the source were brought into the destination.
pub open spec fn icons_aligned(
    dest: DatabaseModel,
    source: DatabaseModel,
    imports: Translation,
    start: DatabaseModel,
) -> bool {
    &&& forall|i: CustomIconId| #[trigger] imports.contains_key(i) <==> icon_referenced(source, i)
    &&& forall|i: CustomIconId| #[trigger]
        imports.contains_key(i) ==> imported_icon(
            i,
            imports[i],
            dest.custom_icons,
            start.custom_icons,
            source.custom_icons,
        )
    &&& icons_brought(dest.custom_icons, start.custom_icons, source.custom_icons, imports)
    &&& forall|i: CustomIconId| #[trigger]
        start.custom_icons.contains_key(i) && !dest.custom_icons.contains_key(i) && icon_referenced(source, i)
            ==> source.custom_icons.contains_key(i)
    &&& start == DatabaseModel { custom_icons: start.custom_icons, ..dest }
}

/// A number is the identifier of an icon.
spec fn is_taken(ids: Seq<CustomIconId>, uuid: Uuid) -> bool {
    ids.contains(CustomIconId { uuid })
}

/// Where all of the first numbers from one on are taken, there are at least that many of them.
proof fn lemma_uuids_taken(ids: Seq<CustomIconId>, n: nat)
    requires
        forall|k: Uuid| 0 < k <= n ==> #[trigger] is_taken(ids, k),
        n <= u128::MAX,
    ensures
        n <= ids.len(),
    decreases n,
{
    if n > 0 {
        let last = CustomIconId { uuid: n as Uuid };
        assert(is_taken(ids, n as Uuid));
        let at = choose|at: int| 0 <= at < ids.len() && ids[at] == last;
        let rest = ids.remove(at);
        assert forall|k: Uuid| 0 < k <= n - 1 implies #[trigger] is_taken(rest, k) by {
            let id = CustomIconId { uuid: k };
            assert(is_taken(ids, k));
            let j = choose|j: int| 0 <= j < ids.len() && ids[j] == id;
            if j < at {
                assert(rest[j] == id);
            } else {
                assert(rest[j - 1] == id);
            }
        }
        lemma_uuids_taken(rest, (n - 1) as nat);
    }
}

/// Whether an identifier is in a list.
fn is_listed(ids: &Vec<CustomIconId>, id: CustomIconId) -> (found: bool)
    ensures
        found == ids@.contains(id),
{
    let mut i: usize = 0;
    while i < ids.len()
        invariant
            i <= ids@.len(),
            forall|j: int| 0 <= j < i ==> #[trigger] ids@[j] != id,
        decreases ids@.len() - i,
    {
        if ids[i] == id {
            return true;
        }
        i = i + 1;
    }
    false
}

/// The first identifier that is not in a list. Zero is none.
fn free_icon_id(taken: &Vec<CustomIconId>) -> (id: CustomIconId)
    ensures
        !taken@.contains(id),
{
    let mut n: usize = 0;
    while n < taken.len() && is_listed(taken, CustomIconId::from_uuid(n as u128 + 1))
        invariant
            n <= taken@.len(),
            forall|k: Uuid| 0 < k <= n ==> #[trigger] is_taken(taken@, k),
        decreases taken@.len() - n,
    {
        proof {
            assert forall|k: Uuid| 0 < k <= n + 1 implies #[trigger] is_taken(taken@, k) by {
                if k == n + 1 {
                    assert(taken@.contains(CustomIconId { uuid: k }));
                }
            }
        }
        n = n + 1;
    }
    let id = CustomIconId::from_uuid(n as u128 + 1);
    proof {
        if taken@.contains(id) {
            assert forall|k: Uuid| 0 < k <= n + 1 implies #[trigger] is_taken(taken@, k) by {
                if k == n + 1 {
                    assert(CustomIconId { uuid: k } == id);
                }
            }
            lemma_uuids_taken(taken@, (n + 1) as nat);
        }
    }
    id
}

/// Puts the items of one list behind those of another.
fn joined(first: Vec<CustomIconId>, second: &Vec<CustomIconId>) -> (all: Vec<CustomIconId>)
    ensures
        forall|i: CustomIconId| #[trigger] all@.contains(i) <==> first@.contains(i) || second@.contains(i),
{
    let ghost f = first@;
    let mut all: Vec<CustomIconId> = first;
    let mut i: usize = 0;
    while i < second.len()
        invariant
            i <= second@.len(),
            forall|c: CustomIconId| #[trigger]
                all@.contains(c) <==> f.contains(c) || second@.take(i as int).contains(c),
        decreases second@.len() - i,
    {
        proof {
            assert(second@.take(i + 1) =~= second@.take(i as int).push(second@[i as int]));
            lemma_push_contains(second@.take(i as int), second@[i as int]);
            lemma_push_contains(all@, second@[i as int]);
        }
        all.push(second[i]);
        i = i + 1;
    }
    assert(second@.take(second@.len() as int) =~= second@);
    all
}

/// Brings an icon of the source into a database: it is shared where the database has its image, and
/// gets a new identifier where its own is taken by another image.
fn bring_icon(dest: &mut Database, icon: &CustomIcon, avoid: &Vec<CustomIconId>) -> (id: CustomIconId)
    requires
        old(dest)@.wf(),
        avoid@.contains(icon.id),
    ensures
        final(dest)@.wf(),
        final(dest)@ == (DatabaseModel { custom_icons: final(dest)@.custom_icons, ..old(dest)@ }),
        final(dest)@.custom_icons.contains_key(id),
        final(dest)@.custom_icons[id].data == icon.data@,
        old(dest)@.custom_icons.contains_key(icon.id) && old(dest)@.custom_icons[icon.id].data == icon.data@ ==> id
            == icon.id,
        id == icon.id || forall|b: CustomIconId| #[trigger]
            old(dest)@.custom_icons.contains_key(b) && old(dest)@.custom_icons[b].data == icon.data@ ==> id.uuid
                <= b.uuid,
        old(dest)@.custom_icons.contains_key(id) ==> final(dest)@ == old(dest)@,
        !old(dest)@.custom_icons.contains_key(id) ==> {
            &&& final(dest)@.custom_icons == old(dest)@.custom_icons.insert(id, adopted_icon(icon.deep_view(), id))
            &&& id == icon.id || (old(dest)@.custom_icons.contains_key(icon.id) && !avoid@.contains(id))
            &&& forall|i: CustomIconId| #[trigger]
                old(dest)@.custom_icons.contains_key(i) ==> old(dest)@.custom_icons[i].data != icon.data@
        },
{
    let ghost before = dest@;
    let mut is_free: bool = true;
    match dest.custom_icon(icon.id) {
        Some(known) => {
            assert(known.data.deep_view() =~= known.data@);
            assert(icon.data.deep_view() =~= icon.data@);
            if known.data.same(&icon.data) {
                return icon.id;
            }
            is_free = false;
        },
        None => {},
    }
    match find_image(dest, &icon.data) {
        Some(id) => id,
        None => {
            let id: CustomIconId = if is_free {
                // The identifier is kept, so that two versions of a database come to the same table.
                icon.id
            } else {
                let taken: Vec<CustomIconId> = joined(dest.custom_icon_ids(), avoid);
                free_icon_id(&taken)
            };
            let data: Vec<u8> = icon.data.duplicate();
            assert(data@ =~= data.deep_view());
            assert(icon.data@ =~= icon.data.deep_view());
            let adopted = CustomIcon {
                id,
                entries: Vec::new(),
                groups: Vec::new(),
                data,
                name: icon.name.duplicate(),
                last_modification_time: icon.last_modification_time,
            };
            assert(adopted.deep_view().entries =~= Set::<Place>::empty());
            assert(adopted.deep_view().groups =~= Set::<GroupId>::empty());
            dest.put_custom_icon(adopted);
            assert(dest@.tree() == before.tree());
            id
        },
    }
}

/// Lets the entries that were not touched show what they show in the destination.
fn keep_untouched_entries(aligned: &mut Database, dest: &Database, source: &Database)
    requires
        old(aligned)@.wf(),
        forall|e: EntryId| #[trigger] old(aligned)@.entries.contains_key(e) <==> source@.entries.contains_key(e),
    ensures
        final(aligned)@.wf(),
        final(aligned)@ == (DatabaseModel { entries: final(aligned)@.entries, ..old(aligned)@ }),
        final(aligned)@.entries == Map::new(
            |e: EntryId| old(aligned)@.entries.contains_key(e),
            |e: EntryId|
                if entry_untouched(dest@, source@, e) {
                    EntryModel { icon: source@.entries[e].icon, ..old(aligned)@.entries[e] }
                } else {
                    old(aligned)@.entries[e]
                },
        ),
{
    let ghost before = aligned@;
    let ghost d = dest@;
    let ghost s = source@;
    let ghost target = Map::new(
        |e: EntryId| before.entries.contains_key(e),
        |e: EntryId|
            if entry_untouched(d, s, e) {
                EntryModel { icon: s.entries[e].icon, ..before.entries[e] }
            } else {
                before.entries[e]
            },
    );
    let ids: Vec<EntryId> = source.entry_ids();
    let mut i: usize = 0;
    while i < ids.len()
        invariant
            i <= ids@.len(),
            ids@.no_duplicates(),
            d == dest@,
            s == source@,
            before.wf(),
            forall|e: EntryId| #[trigger] target.contains_key(e) <==> before.entries.contains_key(e),
            forall|e: EntryId| #[trigger]
                target.contains_key(e) ==> target[e] == if entry_untouched(d, s, e) {
                    EntryModel { icon: s.entries[e].icon, ..before.entries[e] }
                } else {
                    before.entries[e]
                },
            forall|e: EntryId| #[trigger] ids@.contains(e) <==> s.entries.contains_key(e),
            forall|e: EntryId| #[trigger] before.entries.contains_key(e) <==> s.entries.contains_key(e),
            aligned@.wf(),
            aligned@ == (DatabaseModel { entries: aligned@.entries, ..before }),
            forall|e: EntryId| #[trigger] aligned@.entries.contains_key(e) <==> before.entries.contains_key(e),
            forall|e: EntryId| #[trigger]
                aligned@.entries.contains_key(e) ==> aligned@.entries[e] == if ids@.take(i as int).contains(e) {
                    target[e]
                } else {
                    before.entries[e]
                },
        decreases ids@.len() - i,
    {
        let id = ids[i];
        proof {
            lemma_next_unseen(ids@, i as int);
            assert(before.entries.contains_key(id));
            assert(target.contains_key(id));
            assert(before.entries[id].id == id);
        }
        let kept: Option<Entry> = match (dest.entry(id), source.entry(id), aligned.entry(id)) {
            (Some(own), Some(entry), Some(shown)) => {
                assert(own.deep_view().icon == own.icon && own.deep_view().times == own.times);
                if own.times.last_modification.is_some() && own.times.last_modification == entry.times.last_modification
                    && own.icon.same(&entry.icon) {
                    let mut kept: Entry = shown.clone();
                    let ghost copy = kept;
                    kept.icon = entry.icon;
                    proof {
                        shown.lemma_history();
                        copy.lemma_history();
                        kept.lemma_history();
                    }
                    Some(kept)
                } else {
                    None
                }
            },
            _ => None,
        };
        match kept {
            Some(entry) => {
                aligned.put_entry(entry);
                assert(aligned@.tree() == before.tree());
            },
            None => {},
        }
        i = i + 1;
    }
    proof {
        assert(ids@.take(ids@.len() as int) =~= ids@);
        assert(aligned@.entries =~= target);
    }
}

/// Lets the groups that were not touched show what they show in the destination.
fn keep_untouched_groups(aligned: &mut Database, dest: &Database, source: &Database)
    requires
        old(aligned)@.wf(),
        forall|g: GroupId| #[trigger] old(aligned)@.groups.contains_key(g) <==> source@.groups.contains_key(g),
    ensures
        final(aligned)@.wf(),
        final(aligned)@ == (DatabaseModel { groups: final(aligned)@.groups, ..old(aligned)@ }),
        final(aligned)@.groups == Map::new(
            |g: GroupId| old(aligned)@.groups.contains_key(g),
            |g: GroupId|
                if group_untouched(dest@, source@, g) {
                    GroupModel { icon: source@.groups[g].icon, ..old(aligned)@.groups[g] }
                } else {
                    old(aligned)@.groups[g]
                },
        ),
{
    let ghost before = aligned@;
    let ghost d = dest@;
    let ghost s = source@;
    let ghost target = Map::new(
        |g: GroupId| before.groups.contains_key(g),
        |g: GroupId|
            if group_untouched(d, s, g) {
                GroupModel { icon: s.groups[g].icon, ..before.groups[g] }
            } else {
                before.groups[g]
            },
    );
    let ids: Vec<GroupId> = source.group_ids();
    let mut i: usize = 0;
    while i < ids.len()
        invariant
            i <= ids@.len(),
            ids@.no_duplicates(),
            d == dest@,
            s == source@,
            before.wf(),
            forall|g: GroupId| #[trigger] target.contains_key(g) <==> before.groups.contains_key(g),
            forall|g: GroupId| #[trigger]
                target.contains_key(g) ==> target[g] == if group_untouched(d, s, g) {
                    GroupModel { icon: s.groups[g].icon, ..before.groups[g] }
                } else {
                    before.groups[g]
                },
            forall|g: GroupId| #[trigger] ids@.contains(g) <==> s.groups.contains_key(g),
            forall|g: GroupId| #[trigger] before.groups.contains_key(g) <==> s.groups.contains_key(g),
            aligned@.wf(),
            aligned@ == (DatabaseModel { groups: aligned@.groups, ..before }),
            forall|g: GroupId| #[trigger] aligned@.groups.contains_key(g) <==> before.groups.contains_key(g),
            forall|g: GroupId| #[trigger]
                aligned@.groups.contains_key(g) ==> aligned@.groups[g] == if ids@.take(i as int).contains(g) {
                    target[g]
                } else {
                    before.groups[g]
                },
        decreases ids@.len() - i,
    {
        let id = ids[i];
        let ghost mid = aligned@;
        proof {
            lemma_next_unseen(ids@, i as int);
            assert(before.groups.contains_key(id));
            assert(target.contains_key(id));
            assert(before.groups[id].id == id);
        }
        let kept: Option<Group> = match (dest.group(id), source.group(id), aligned.group(id)) {
            (Some(own), Some(group), Some(shown)) => {
                if own.times.last_modification.is_some() && own.times.last_modification == group.times.last_modification
                    && own.icon.same(&group.icon) {
                    let mut kept: Group = shown.clone();
                    kept.icon = group.icon;
                    Some(kept)
                } else {
                    None
                }
            },
            _ => None,
        };
        match kept {
            Some(group) => {
                aligned.put_group(group);
                assert(aligned@.tree() =~= mid.tree());
            },
            None => {},
        }
        i = i + 1;
    }
    proof {
        assert(ids@.take(ids@.len() as int) =~= ids@);
        assert(aligned@.groups =~= target);
    }
}

/// Brings the icons that the source shows into the destination, and returns what stands for them.
fn import_icons(dest: &mut Database, source: &Database) -> (table: HashMap<Uuid, Option<CustomIconId>>)
    requires
        old(dest)@.wf(),
        source@.wf(),
    ensures
        final(dest)@.wf(),
        icons_aligned(old(dest)@, source@, translation_of(table@), final(dest)@),
{
    let ghost before = dest@;
    let ghost src = source@;
    let ghost s = source@.custom_icons;
    let icons: Vec<CustomIconId> = referenced_custom_icons(source);
    let avoid: Vec<CustomIconId> = joined(joined(source.custom_icon_ids(), &icons), &referenced_custom_icons(dest));
    let mut table: HashMap<Uuid, Option<CustomIconId>> = HashMap::new();
    let mut i: usize = 0;
    while i < icons.len()
        invariant
            i <= icons@.len(),
            before == old(dest)@,
            src == source@,
            src.wf(),
            s == src.custom_icons,
            forall|c: CustomIconId| #[trigger] icons@.contains(c) <==> icon_referenced(src, c),
            forall|c: CustomIconId| s.contains_key(c) ==> #[trigger] avoid@.contains(c),
            forall|c: CustomIconId| #[trigger] icon_referenced(src, c) ==> avoid@.contains(c),
            dest@.wf(),
            dest@ == (DatabaseModel { custom_icons: dest@.custom_icons, ..before }),
            icons_brought(before.custom_icons, dest@.custom_icons, s, translation_of(table@)),
            forall|c: CustomIconId| #[trigger]
                translation_of(table@).contains_key(c) <==> icons@.take(i as int).contains(c),
            forall|c: CustomIconId| #[trigger]
                translation_of(table@).contains_key(c) ==> imported_icon(
                    c,
                    translation_of(table@)[c],
                    before.custom_icons,
                    dest@.custom_icons,
                    s,
                ),
            forall|c: CustomIconId| #[trigger]
                dest@.custom_icons.contains_key(c) && !before.custom_icons.contains_key(c) && icon_referenced(src, c)
                    ==> s.contains_key(c),
        decreases icons@.len() - i,
    {
        let id = icons[i];
        let ghost seen = icons@.take(i as int);
        let ghost mid = dest@.custom_icons;
        let ghost old_table = table@;
        proof {
            assert(icons@.contains(icons@[i as int]));
            assert(icons@.take(i + 1) =~= seen.push(id));
            lemma_push_contains(seen, id);
        }
        if !table.contains_key(&id.uuid) {
            proof {
                assert(!translation_of(old_table).contains_key(id));
                if mid.contains_key(id) && !before.custom_icons.contains_key(id) {
                    let from = choose|from: CustomIconId| #[trigger]
                        brought_as(from, id, before.custom_icons, mid, s, translation_of(old_table));
                    assert(s.contains_key(id));
                    assert(from == id);
                }
            }
            let shown: Option<CustomIconId> = match source.custom_icon(id) {
                Some(icon) => {
                    assert(s[id].id == id);
                    assert(avoid@.contains(id));
                    Some(bring_icon(dest, icon, &avoid))
                },
                None => if dest.custom_icon(id).is_some() {
                    Some(id)
                } else {
                    None
                },
            };
            table.insert(id.uuid, shown);
            proof {
                let old_imports = translation_of(old_table);
                let imports = translation_of(table@);
                let b = before.custom_icons;
                let after = dest@.custom_icons;
                assert forall|c: CustomIconId| c != id implies c.uuid != id.uuid by {}
                assert(imports =~= old_imports.insert(id, shown));
                assert forall|c: CustomIconId| #[trigger] mid.contains_key(c) implies after.contains_key(c) && after[c]
                    == mid[c] by {}
                assert forall|c: CustomIconId| #[trigger] after.contains_key(c) && !b.contains_key(c) implies exists|
                    from: CustomIconId,
                | #[trigger] brought_as(from, c, b, after, s, imports) by {
                    if mid.contains_key(c) {
                        let from = choose|from: CustomIconId| #[trigger] brought_as(from, c, b, mid, s, old_imports);
                        assert(from != id);
                        assert(brought_as(from, c, b, after, s, imports));
                    } else {
                        assert(brought_as(id, c, b, after, s, imports));
                    }
                }
                assert forall|c: CustomIconId| #[trigger] imports.contains_key(c) implies imported_icon(
                    c,
                    imports[c],
                    b,
                    after,
                    s,
                ) by {
                    if c != id {
                        assert(old_imports.contains_key(c));
                        assert(imported_icon(c, old_imports[c], b, mid, s));
                    }
                }
            }
        } else {
            assert(translation_of(table@).contains_key(id));
        }
        i = i + 1;
    }
    assert(icons@.take(icons@.len() as int) =~= icons@);
    table
}

/// Brings the icons that the source shows into the destination, and returns the source with the
/// identifiers under which the destination has them.
///
/// Icons travel with entries and groups by their identifiers, while the images live in a table of
/// the database: without this step a merged database would show icons that it cannot resolve, or
/// other images. The identifier in the source is kept whenever it is free, so that two databases of
/// the same lineage come to one table. Equal images are shared, and an identifier already taken by a
/// different image gets a new one.
pub fn align_custom_icons(dest: &mut Database, source: &Database) -> (result: (Database, Ghost<Translation>))
    requires
        old(dest)@.wf(),
        source@.wf(),
    ensures
        final(dest)@.wf(),
        result.0@.wf(),
        icons_aligned(old(dest)@, source@, result.1@, final(dest)@),
        result.0@ == aligned_source(old(dest)@, source@, result.1@),
{
    let ghost before = dest@;
    let ghost s = source@;
    let table = import_icons(dest, source);
    let ghost imports = translation_of(table@);
    let mut aligned: Database = source.clone();
    retarget_entries(&mut aligned, &table);
    retarget_groups(&mut aligned, &table);
    keep_untouched_entries(&mut aligned, dest, source);
    keep_untouched_groups(&mut aligned, dest, source);
    proof {
        assert(aligned@.entries =~= aligned_source(before, s, imports).entries);
        assert(aligned@.groups =~= aligned_source(before, s, imports).groups);
    }
    (aligned, Ghost(imports))
}

/// Taking over icons changes nothing but icons: what a merge does with groups is the same.
pub proof fn lemma_adopted_alike(
    dest: DatabaseModel,
    source: DatabaseModel,
    translation: Translation,
    base: DatabaseModel,
)
    requires
        icons_adopted(dest, source, translation, base),
    ensures
        base.tree() == dest.tree(),
        base.groups.dom() == dest.groups.dom(),
        base.entries.dom() == dest.entries.dom(),
        forall|e: EntryId| #[trigger]
            dest.entries.contains_key(e) ==> base.entries[e] == retargeted_entry(dest.entries[e], translation),
        forall|g: GroupId| #[trigger]
            dest.groups.contains_key(g) ==> base.groups[g] == retargeted_group(dest.groups[g], translation),
        histories_fit(base) == histories_fit(dest),
        forall|g: GroupId| #[trigger] group_wanted(base, source, g) <==> group_wanted(dest, source, g),
        forall|g: GroupId| #[trigger] group_created(base, source, g) <==> group_created(dest, source, g),
{
    assert(base.tree() =~= dest.tree());
    assert(base.groups.dom() =~= dest.groups.dom());
    assert(base.entries.dom() =~= dest.entries.dom());
    assert forall|e: EntryId| #[trigger] dest.entries.contains_key(e) implies base.entries.contains_key(e)
        && base.entries[e] == retargeted_entry(dest.entries[e], translation) by {}
    assert forall|g: GroupId| #[trigger] group_wanted(base, source, g) <==> group_wanted(dest, source, g) by {
        assert(base.groups.dom().contains(g) == dest.groups.dom().contains(g));
    }
    if histories_fit(dest) {
        assert forall|e: EntryId| #[trigger] base.entries.contains_key(e) && base.entries[e].history is Some implies base.entries[e].history->0.len()
            <= usize::MAX by {
            assert(dest.entries.contains_key(e));
        }
    }
}

/// Bringing in icons changes nothing but icons: what a merge does with groups is the same.
pub proof fn lemma_alike(dest: DatabaseModel, source: DatabaseModel, imports: Translation, start: DatabaseModel)
    requires
        icons_aligned(dest, source, imports, start),
    ensures
        ({
            let aligned = aligned_source(dest, source, imports);
            &&& aligned.tree() == source.tree()
            &&& start.tree() == dest.tree()
            &&& dest.wf() ==> start.wf()
            &&& source.wf() ==> aligned.wf()
            &&& forall|e: EntryId| #[trigger]
                source.entries.contains_key(e) ==> aligned.entries.contains_key(e) && aligned.entries[e]
                    == (EntryModel {
                    icon: aligned.entries[e].icon,
                    history: aligned.entries[e].history,
                    ..source.entries[e]
                })
            &&& forall|g: GroupId| #[trigger]
                source.groups.contains_key(g) ==> aligned.groups.contains_key(g) && aligned.groups[g] == (GroupModel {
                    icon: aligned.groups[g].icon,
                    ..source.groups[g]
                })
            &&& forall|g: GroupId, t: NaiveDateTime|
                source.groups.contains_key(g) ==> (#[trigger] changed_at(aligned, g, t) <==> changed_at(source, g, t))
            &&& forall|g: GroupId| #[trigger] group_wanted(start, aligned, g) <==> group_wanted(dest, source, g)
            &&& forall|g: GroupId| #[trigger] group_created(start, aligned, g) <==> group_created(dest, source, g)
        }),
{
    let aligned = aligned_source(dest, source, imports);
    assert(aligned.tree() =~= source.tree());
    assert(start.tree() == dest.tree());
    assert forall|g: GroupId, t: NaiveDateTime| source.groups.contains_key(g) implies (#[trigger] changed_at(
        aligned,
        g,
        t,
    ) <==> changed_at(source, g, t)) by {
        if exists|e: EntryId|
            {
                &&& #[trigger] source.entries.contains_key(e)
                &&& source.entries[e].parent == g
                &&& source.entries[e].times.spec_last_change() == Some(t)
            } {
            let e = choose|e: EntryId|
                {
                    &&& #[trigger] source.entries.contains_key(e)
                    &&& source.entries[e].parent == g
                    &&& source.entries[e].times.spec_last_change() == Some(t)
                };
            assert(aligned.entries.contains_key(e));
        }
        if exists|c: GroupId|
            {
                &&& #[trigger] source.groups.contains_key(c)
                &&& source.groups[c].parent == Some(g)
                &&& source.groups[c].times.spec_last_change() == Some(t)
            } {
            let c = choose|c: GroupId|
                {
                    &&& #[trigger] source.groups.contains_key(c)
                    &&& source.groups[c].parent == Some(g)
                    &&& source.groups[c].times.spec_last_change() == Some(t)
                };
            assert(aligned.groups.contains_key(c));
        }
    }
    assert forall|g: GroupId| #[trigger] group_wanted(start, aligned, g) <==> group_wanted(dest, source, g) by {
        if group_wanted(dest, source, g) && dest.deleted_objects.contains_key(g.uuid) {
            let t = choose|t: NaiveDateTime| #[trigger]
                changed_at(source, g, t) && (dest.deleted_objects[g.uuid] is None || t.is_after(
                    dest.deleted_objects[g.uuid]->0,
                ));
            assert(changed_at(aligned, g, t));
        }
        if group_wanted(start, aligned, g) && dest.deleted_objects.contains_key(g.uuid) {
            let t = choose|t: NaiveDateTime| #[trigger]
                changed_at(aligned, g, t) && (dest.deleted_objects[g.uuid] is None || t.is_after(
                    dest.deleted_objects[g.uuid]->0,
                ));
            assert(changed_at(source, g, t));
        }
    }
    assert forall|g: GroupId| #[trigger] group_created(start, aligned, g) <==> group_created(dest, source, g) by {
        if group_created(dest, source, g) {
            let (from, n) = choose|from: GroupId, n: nat|
                group_wanted(dest, source, from) && #[trigger] climbs(source.tree(), dest.groups.dom(), from, g, n);
            assert(group_wanted(start, aligned, from) && climbs(aligned.tree(), start.groups.dom(), from, g, n));
        }
        if group_created(start, aligned, g) {
            let (from, n) = choose|from: GroupId, n: nat|
                group_wanted(start, aligned, from) && #[trigger] climbs(
                    aligned.tree(),
                    start.groups.dom(),
                    from,
                    g,
                    n,
                );
            assert(group_wanted(dest, source, from) && climbs(source.tree(), dest.groups.dom(), from, g, n));
        }
    }
    if dest.wf() {
        assert forall|i: CustomIconId| #[trigger] start.custom_icons.contains_key(i) implies start.custom_icons[i].id
            == i by {
            if !dest.custom_icons.contains_key(i) {
                let from = choose|from: CustomIconId| #[trigger]
                    brought_as(
                        from,
                        i,
                        dest.custom_icons,
                        start.custom_icons,
                        source.custom_icons,
                        imports,
                    );
            }
        }
    }
}

/// Icons have no bearing on the attachments that an entry uses.
pub proof fn lemma_same_uses(
    dest: DatabaseModel,
    source: DatabaseModel,
    imports: Translation,
    other_dest: DatabaseModel,
    other_imports: Translation,
    e: EntryId,
)
    requires
        source.entries.contains_key(e),
    ensures
        forall|a: AttachmentId| #[trigger]
            entry_uses(aligned_source(other_dest, source, other_imports).entries[e], a) ==> entry_uses(
                aligned_source(dest, source, imports).entries[e],
                a,
            ),
{
    let one = aligned_source(dest, source, imports).entries[e];
    let other = aligned_source(other_dest, source, other_imports).entries[e];
    assert forall|a: AttachmentId| #[trigger] entry_uses(other, a) implies entry_uses(one, a) by {
        if !other.attachments.contains_value(a) {
            let i = choose|i: int|
                0 <= i < other.history->0.len() && (#[trigger] other.history->0[i]).attachments.contains_value(a);
            assert(one.history->0[i].attachments.contains_value(a));
        }
    }
}

} // verus!

//! What is in an object is in its content.
use vstd::prelude::*;

use crate::db::attachment::Attachment;
use crate::db::autotype::AutoType;
use crate::db::custom_data::CustomDataItem;
use crate::db::database::{without_groups, DatabaseModel};
use crate::db::entry::{Entry, EntryModel};
use crate::db::group::{Group, GroupModel};
use crate::db::icon::CustomIcon;
use crate::db::tree::{
    ancestor, lemma_acyclic, lemma_within_self, lemma_within_step, within, within_any,
};
use crate::db::value::Value;
use crate::ids::{EntryId, GroupId};

verus! {

/// The content of an entry has every field of it.
pub proof fn entry_content_is_complete(e: Entry)
    ensures
        ({
            let m = e.deep_view();
            &&& m.id == e.id
            &&& m.parent == e.parent
            &&& m.fields == e.fields.deep_view()
            &&& m.autotype == e.autotype.deep_view()
            &&& m.tags.len() == e.tags@.len()
            &&& forall|i: int| 0 <= i < m.tags.len() ==> #[trigger] m.tags[i] == e.tags@[i]@
            &&& m.times == e.times
            &&& m.custom_data == e.custom_data.deep_view()
            &&& m.icon == e.icon
            &&& m.foreground_color == e.foreground_color
            &&& m.background_color == e.background_color
            &&& m.override_url is Some <==> e.override_url is Some
            &&& e.override_url is Some ==> m.override_url->0 == e.override_url->0@
            &&& m.quality_check == e.quality_check
            &&& m.previous_parent_group == e.previous_parent_group
            &&& m.attachments == e.attachments.deep_view()
            &&& m.history is Some <==> e.history is Some
            &&& e.history is Some ==> m.history->0.len() == e.history->0.entries@.len()
            &&& e.history is Some ==> forall|i: int|
                0 <= i < m.history->0.len() ==> #[trigger] m.history->0[i] == e.history->0.entries@[i].deep_view()
        }),
{
    e.lemma_history();
}

/// The content of a group has every field of it.
pub proof fn group_content_is_complete(g: Group)
    ensures
        ({
            let m = g.deep_view();
            &&& m.id == g.id
            &&& m.parent == g.parent
            &&& m.name == g.name@
            &&& m.notes is Some <==> g.notes is Some
            &&& g.notes is Some ==> m.notes->0 == g.notes->0@
            &&& m.icon == g.icon
            &&& m.times == g.times
            &&& m.custom_data == g.custom_data.deep_view()
            &&& m.is_expanded == g.is_expanded
            &&& m.default_autotype_sequence is Some <==> g.default_autotype_sequence is Some
            &&& g.default_autotype_sequence is Some ==> m.default_autotype_sequence->0
                == g.default_autotype_sequence->0@
            &&& m.enable_autotype == g.enable_autotype
            &&& m.enable_searching == g.enable_searching
            &&& m.last_top_visible_entry == g.last_top_visible_entry
            &&& m.previous_parent_group == g.previous_parent_group
            &&& m.tags.len() == g.tags@.len()
            &&& forall|i: int| 0 <= i < m.tags.len() ==> #[trigger] m.tags[i] == g.tags@[i]@
        }),
{
}

/// The content of the smaller objects has every field of them.
pub proof fn other_contents_are_complete(
    attachment: Attachment,
    icon: CustomIcon,
    typing: AutoType,
    item: CustomDataItem,
    value: Value<String>,
)
    ensures
        attachment.deep_view().id == attachment.id,
        attachment.deep_view().data == attachment.data.deep_view(),
        forall|place: (EntryId, Option<usize>)| #[trigger]
            attachment.deep_view().entries.contains(place) <==> attachment.entries@.contains(place),
        icon.deep_view().id == icon.id,
        icon.deep_view().data == icon.data@,
        icon.deep_view().name is Some <==> icon.name is Some,
        icon.name is Some ==> icon.deep_view().name->0 == icon.name->0@,
        icon.deep_view().last_modification_time == icon.last_modification_time,
        forall|place: (EntryId, Option<usize>)| #[trigger]
            icon.deep_view().entries.contains(place) <==> icon.entries@.contains(place),
        forall|g: GroupId| #[trigger] icon.deep_view().groups.contains(g) <==> icon.groups@.contains(g),
        typing.deep_view().enabled == typing.enabled,
        typing.deep_view().default_sequence is Some <==> typing.default_sequence is Some,
        typing.default_sequence is Some ==> typing.deep_view().default_sequence->0 == typing.default_sequence->0@,
        typing.deep_view().data_transfer_obfuscation == typing.data_transfer_obfuscation,
        typing.deep_view().associations.len() == typing.associations@.len(),
        forall|i: int|
            0 <= i < typing.associations@.len() ==> (#[trigger] typing.deep_view().associations[i]).window
                == typing.associations@[i].window@ && typing.deep_view().associations[i].sequence
                == typing.associations@[i].sequence@,
        item.deep_view().value is Some <==> item.value is Some,
        item.value is Some ==> item.deep_view().value->0 == item.value->0.deep_view(),
        item.deep_view().last_modification_time == item.last_modification_time,
        value.deep_view() is Protected <==> value is Protected,
        value.deep_view().data() == value.data()@,
        value is Protected ==> value.data() == value->Protected_0,
        value is Unprotected ==> value.data() == value->Unprotected_0,
{
}

/// A new entry and a new group hold nothing, and a new entry has an empty history.
pub proof fn new_objects_are_empty(id: EntryId, place: GroupId, group: GroupId, parent: Option<GroupId>)
    ensures
        ({
            let e = EntryModel::blank(id, place);
            &&& e.id == id && e.parent == place
            &&& e.fields == Map::<Seq<char>, Value<Seq<char>>>::empty()
            &&& e.autotype is None && e.tags.len() == 0 && e.icon is None
            &&& e.custom_data.dom() == Set::<Seq<char>>::empty()
            &&& e.foreground_color is None && e.background_color is None && e.override_url is None
            &&& e.quality_check is None && e.previous_parent_group is None
            &&& e.attachments.dom() == Set::<Seq<char>>::empty()
            &&& e.history is Some && e.history->0.len() == 0
            &&& e.times.creation is None && e.times.last_modification is None && e.times.last_access is None
            &&& e.times.expiry is None && e.times.location_changed is None && e.times.expires is None
            &&& e.times.usage_count is None
        }),
        ({
            let g = GroupModel::blank(group, parent);
            &&& g.id == group && g.parent == parent
            &&& g.name.len() == 0 && g.notes is None && g.icon is None && g.tags.len() == 0
            &&& g.custom_data.dom() == Set::<Seq<char>>::empty()
            &&& !g.is_expanded && g.default_autotype_sequence is None && g.enable_autotype is None
            &&& g.enable_searching is None && g.last_top_visible_entry is None
            &&& g.previous_parent_group is None
            &&& g.times.creation is None && g.times.last_modification is None && g.times.last_access is None
            &&& g.times.expiry is None && g.times.location_changed is None && g.times.expires is None
            &&& g.times.usage_count is None
        }),
{
    assert(EntryModel::blank(id, place).custom_data.dom() =~= Set::<Seq<char>>::empty());
    assert(EntryModel::blank(id, place).attachments.dom() =~= Set::<Seq<char>>::empty());
    assert(GroupModel::blank(group, parent).custom_data.dom() =~= Set::<Seq<char>>::empty());
}

/// In a well-formed database every object has its own identifier, every group but the root stands in
/// another one, the root in none, and every entry stands in a group.
pub proof fn every_object_has_its_place(db: DatabaseModel)
    requires
        db.wf(),
    ensures
        db.groups.contains_key(db.root) && db.groups[db.root].parent is None,
        forall|g: GroupId| #[trigger]
            db.groups.contains_key(g) ==> db.groups[g].id == g && (g != db.root ==> db.groups[g].parent is Some
                && db.groups.contains_key(db.groups[g].parent->0) && db.groups[g].parent->0 != g),
        forall|e: EntryId| #[trigger]
            db.entries.contains_key(e) ==> db.entries[e].id == e && db.groups.contains_key(db.entries[e].parent),
{
    let t = db.tree();
    assert(t.contains_key(db.root));
    assert forall|g: GroupId| #[trigger] db.groups.contains_key(g) implies db.groups[g].id == g && (g != db.root
        ==> db.groups[g].parent is Some && db.groups.contains_key(db.groups[g].parent->0)
        && db.groups[g].parent->0 != g) by {
        assert(t.contains_key(g));
        if g != db.root && t[g] == Some(g) {
            assert(ancestor(t, g, 0) == Some(g));
            assert(ancestor(t, g, 1) == Some(g));
            lemma_acyclic(t, db.root, g, 1);
        }
    }
}

/// When a group is removed, it goes with its entries and with the groups below it, and nothing else
/// goes or changes.
pub proof fn removed_group_takes_what_is_in_it(db: DatabaseModel, top: GroupId)
    requires
        db.groups.contains_key(top),
    ensures
        ({
            let left = without_groups(db, set![top]);
            &&& !left.groups.contains_key(top)
            &&& forall|g: GroupId|
                #![trigger left.groups.contains_key(g)]
                left.groups.contains_key(g) ==> db.groups.contains_key(g) && left.groups[g] == db.groups[g]
            &&& forall|g: GroupId|
                #![trigger db.groups.contains_key(g)]
                db.groups.contains_key(g) && g != top && db.groups[g].parent is Some ==> (left.groups.contains_key(g)
                    <==> left.groups.contains_key(db.groups[g].parent->0) || !db.groups.contains_key(
                    db.groups[g].parent->0,
                ))
            &&& forall|g: GroupId|
                #![trigger db.groups.contains_key(g)]
                db.groups.contains_key(g) && g != top && db.groups[g].parent is None ==> left.groups.contains_key(g)
            &&& forall|e: EntryId|
                #![trigger left.entries.contains_key(e)]
                left.entries.contains_key(e) ==> db.entries.contains_key(e) && left.entries[e] == db.entries[e]
            &&& forall|e: EntryId|
                #![trigger db.entries.contains_key(e)]
                db.entries.contains_key(e) && db.groups.contains_key(db.entries[e].parent)
                    ==> (left.entries.contains_key(e) <==> left.groups.contains_key(db.entries[e].parent))
            &&& left.root == db.root && left.attachments == db.attachments && left.custom_icons == db.custom_icons
            &&& left.deleted_objects == db.deleted_objects
        }),
{
    let t = db.tree();
    let left = without_groups(db, set![top]);
    assert forall|g: GroupId| within_any(t, g, set![top]) == within(t, g, top) by {
        if within(t, g, top) {
            assert(set![top].contains(top));
        }
    }
    lemma_within_self(t, top);
    assert forall|g: GroupId|
        #![trigger db.groups.contains_key(g)]
        db.groups.contains_key(g) && g != top && db.groups[g].parent is Some implies (left.groups.contains_key(g)
        <==> left.groups.contains_key(db.groups[g].parent->0) || !db.groups.contains_key(
        db.groups[g].parent->0,
    )) by {
        lemma_within_step(t, g, top);
        assert(t.contains_key(g) && t[g] == db.groups[g].parent);
        let p = db.groups[g].parent->0;
        if !db.groups.contains_key(p) {
            lemma_within_step(t, p, top);
        }
    }
    assert forall|g: GroupId|
        #![trigger db.groups.contains_key(g)]
        db.groups.contains_key(g) && g != top && db.groups[g].parent is None implies left.groups.contains_key(g) by {
        lemma_within_step(t, g, top);
    }
}

/// An entry with its history replaced is the same entry in every other field.
pub proof fn only_the_history_is_replaced(e: EntryModel, history: Option<Seq<EntryModel>>)
    ensures
        ({
            let other = e.with_history(history);
            &&& other.history == history
            &&& other.id == e.id && other.parent == e.parent && other.fields == e.fields
            &&& other.autotype == e.autotype && other.tags == e.tags && other.times == e.times
            &&& other.custom_data == e.custom_data && other.icon == e.icon
            &&& other.foreground_color == e.foreground_color && other.background_color == e.background_color
            &&& other.override_url == e.override_url && other.quality_check == e.quality_check
            &&& other.previous_parent_group == e.previous_parent_group && other.attachments == e.attachments
        }),
{
}

} // verus!

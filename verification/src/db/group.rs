//! Groups of entries.
use vstd::prelude::*;

use crate::datum::Datum;
use crate::db::custom_data::{CustomDataItem, CustomDataModel};
use crate::db::icon::Icon;
use crate::db::times::Times;
use crate::ids::{EntryId, GroupId};
use crate::text_map::TextMap;

verus! {

/// A group. What it contains is recorded by the parents of entries and of other groups.
#[derive(Debug)]
pub struct Group {
    pub id: GroupId,
    /// The group that contains this one; the root has none.
    pub parent: Option<GroupId>,
    pub name: String,
    pub notes: Option<String>,
    pub icon: Option<Icon>,
    pub times: Times,
    pub custom_data: TextMap<CustomDataItem>,
    pub is_expanded: bool,
    pub default_autotype_sequence: Option<String>,
    pub enable_autotype: Option<bool>,
    pub enable_searching: Option<bool>,
    pub last_top_visible_entry: Option<EntryId>,
    pub previous_parent_group: Option<GroupId>,
    pub tags: Vec<String>,
}

/// The content of a group.
pub struct GroupModel {
    pub id: GroupId,
    pub parent: Option<GroupId>,
    pub name: Seq<char>,
    pub notes: Option<Seq<char>>,
    pub icon: Option<Icon>,
    pub times: Times,
    pub custom_data: Map<Seq<char>, CustomDataModel>,
    pub is_expanded: bool,
    pub default_autotype_sequence: Option<Seq<char>>,
    pub enable_autotype: Option<bool>,
    pub enable_searching: Option<bool>,
    pub last_top_visible_entry: Option<EntryId>,
    pub previous_parent_group: Option<GroupId>,
    pub tags: Seq<Seq<char>>,
}

impl DeepView for Group {
    type V = GroupModel;

    open spec fn deep_view(&self) -> GroupModel {
        GroupModel {
            id: self.id,
            parent: self.parent,
            name: self.name@,
            notes: self.notes.deep_view(),
            icon: self.icon,
            times: self.times,
            custom_data: self.custom_data.deep_view(),
            is_expanded: self.is_expanded,
            default_autotype_sequence: self.default_autotype_sequence.deep_view(),
            enable_autotype: self.enable_autotype,
            enable_searching: self.enable_searching,
            last_top_visible_entry: self.last_top_visible_entry,
            previous_parent_group: self.previous_parent_group,
            tags: self.tags.deep_view(),
        }
    }
}

impl Group {
    /// An empty group.
    pub fn new(id: GroupId, parent: Option<GroupId>) -> (group: Self)
        ensures
            group.deep_view() == GroupModel::blank(id, parent),
    {
        let group = Group {
            id,
            parent,
            name: String::new(),
            notes: None,
            icon: None,
            times: Times::default(),
            custom_data: TextMap::new(),
            is_expanded: false,
            default_autotype_sequence: None,
            enable_autotype: None,
            enable_searching: None,
            last_top_visible_entry: None,
            previous_parent_group: None,
            tags: Vec::new(),
        };
        assert(group.tags.deep_view() =~= Seq::<Seq<char>>::empty());
        group
    }
}

impl GroupModel {
    /// A group in which nothing is set.
    pub open spec fn blank(id: GroupId, parent: Option<GroupId>) -> Self {
        GroupModel {
            id,
            parent,
            name: Seq::empty(),
            notes: None,
            icon: None,
            times: Times::unknown(),
            custom_data: Map::empty(),
            is_expanded: false,
            default_autotype_sequence: None,
            enable_autotype: None,
            enable_searching: None,
            last_top_visible_entry: None,
            previous_parent_group: None,
            tags: Seq::empty(),
        }
    }
}

impl Clone for Group {
    fn clone(&self) -> (copy: Self)
        ensures
            copy.deep_view() == self.deep_view(),
    {
        Group {
            id: self.id,
            parent: self.parent,
            name: self.name.duplicate(),
            notes: self.notes.duplicate(),
            icon: self.icon,
            times: self.times,
            custom_data: self.custom_data.duplicate(),
            is_expanded: self.is_expanded,
            default_autotype_sequence: self.default_autotype_sequence.duplicate(),
            enable_autotype: self.enable_autotype,
            enable_searching: self.enable_searching,
            last_top_visible_entry: self.last_top_visible_entry,
            previous_parent_group: self.previous_parent_group,
            tags: self.tags.duplicate(),
        }
    }
}

} // verus!

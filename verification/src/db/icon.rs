//! Icons of entries and groups.
use vstd::prelude::*;

use crate::datetime::NaiveDateTime;
use crate::datum::Datum;
use crate::db::database::{Database, DatabaseModel};
use crate::ids::{CustomIconId, EntryId, GroupId};

verus! {

/// The icon shown for an entry or a group: one of the built-in ones, or an image of the database.
#[derive(Clone, Copy, Debug, PartialEq, Eq, Structural)]
pub enum Icon {
    BuiltIn(usize),
    Custom(CustomIconId),
}

impl DeepView for Icon {
    type V = Self;

    open spec fn deep_view(&self) -> Self {
        *self
    }
}

impl Datum for Icon {
    fn same(&self, other: &Self) -> (equal: bool) {
        *self == *other
    }

    fn duplicate(&self) -> (copy: Self) {
        *self
    }
}

/// A colour given by its red, green and blue parts.
#[derive(Clone, Copy, Debug, PartialEq, Eq, Structural)]
pub struct Color {
    pub r: u8,
    pub g: u8,
    pub b: u8,
}

impl DeepView for Color {
    type V = Self;

    open spec fn deep_view(&self) -> Self {
        *self
    }
}

impl Datum for Color {
    fn same(&self, other: &Self) -> (equal: bool) {
        *self == *other
    }

    fn duplicate(&self) -> (copy: Self) {
        *self
    }
}

/// An image of the database, with the places that show it.
///
/// A place in an entry is the entry with the position of an archived version, or with no
/// position for the current version.
#[derive(Debug)]
pub struct CustomIcon {
    pub id: CustomIconId,
    pub entries: Vec<(EntryId, Option<usize>)>,
    pub groups: Vec<GroupId>,
    pub data: Vec<u8>,
    pub name: Option<String>,
    pub last_modification_time: Option<NaiveDateTime>,
}

/// The content of a custom icon.
pub struct CustomIconModel {
    pub id: CustomIconId,
    pub entries: Set<(EntryId, Option<usize>)>,
    pub groups: Set<GroupId>,
    pub data: Seq<u8>,
    pub name: Option<Seq<char>>,
    pub last_modification_time: Option<NaiveDateTime>,
}

impl DeepView for CustomIcon {
    type V = CustomIconModel;

    open spec fn deep_view(&self) -> CustomIconModel {
        CustomIconModel {
            id: self.id,
            entries: self.entries@.to_set(),
            groups: self.groups@.to_set(),
            data: self.data@,
            name: self.name.deep_view(),
            last_modification_time: self.last_modification_time,
        }
    }
}

impl Database {
    /// Stores an image as a custom icon that nothing shows yet.
    pub fn add_custom_icon(&mut self, id: CustomIconId, data: Vec<u8>)
        requires
            !old(self)@.custom_icons.contains_key(id),
        ensures
            final(self)@ == (DatabaseModel {
                custom_icons: old(self)@.custom_icons.insert(
                    id,
                    CustomIconModel {
                        id,
                        entries: Set::empty(),
                        groups: Set::empty(),
                        data: data@,
                        name: None,
                        last_modification_time: None,
                    },
                ),
                ..old(self)@
            }),
            old(self)@.wf() ==> final(self)@.wf(),
    {
        let icon = CustomIcon {
            id,
            entries: Vec::new(),
            groups: Vec::new(),
            data,
            name: None,
            last_modification_time: None,
        };
        assert(icon.deep_view().entries =~= Set::<(EntryId, Option<usize>)>::empty());
        assert(icon.deep_view().groups =~= Set::<GroupId>::empty());
        self.put_custom_icon(icon);
        assert(self@.tree() == old(self)@.tree());
    }
}

} // verus!

//! Entries and their archived versions.
use vstd::prelude::*;

use crate::datum::Datum;
use crate::db::autotype::{AutoType, AutoTypeModel};
use crate::db::custom_data::{CustomDataItem, CustomDataModel};
use crate::db::icon::{Color, Icon};
use crate::db::times::Times;
use crate::db::value::Value;
use crate::ids::{AttachmentId, EntryId, GroupId};
use crate::text_map::TextMap;

verus! {

/// An entry: a title, a user name, a password and the like, stored under the names of its fields.
#[derive(Debug)]
pub struct Entry {
    pub id: EntryId,
    /// The group that contains the entry.
    pub parent: GroupId,
    pub fields: TextMap<Value<String>>,
    pub autotype: Option<AutoType>,
    pub tags: Vec<String>,
    pub times: Times,
    pub custom_data: TextMap<CustomDataItem>,
    pub icon: Option<Icon>,
    pub foreground_color: Option<Color>,
    pub background_color: Option<Color>,
    pub override_url: Option<String>,
    pub quality_check: Option<bool>,
    pub previous_parent_group: Option<GroupId>,
    pub attachments: TextMap<AttachmentId>,
    pub history: Option<History>,
}

/// The archived versions of an entry, the latest first.
#[derive(Debug)]
pub struct History {
    pub entries: Vec<Entry>,
}

/// The content of an entry.
pub struct EntryModel {
    pub id: EntryId,
    pub parent: GroupId,
    pub fields: Map<Seq<char>, Value<Seq<char>>>,
    pub autotype: Option<AutoTypeModel>,
    pub tags: Seq<Seq<char>>,
    pub times: Times,
    pub custom_data: Map<Seq<char>, CustomDataModel>,
    pub icon: Option<Icon>,
    pub foreground_color: Option<Color>,
    pub background_color: Option<Color>,
    pub override_url: Option<Seq<char>>,
    pub quality_check: Option<bool>,
    pub previous_parent_group: Option<GroupId>,
    pub attachments: Map<Seq<char>, AttachmentId>,
    pub history: Option<Seq<EntryModel>>,
}

/// The content of an entry, its archived versions included.
pub open spec fn entry_model(e: Entry) -> EntryModel
    decreases e,
{
    EntryModel {
        id: e.id,
        parent: e.parent,
        fields: e.fields.deep_view(),
        autotype: e.autotype.deep_view(),
        tags: e.tags.deep_view(),
        times: e.times,
        custom_data: e.custom_data.deep_view(),
        icon: e.icon,
        foreground_color: e.foreground_color,
        background_color: e.background_color,
        override_url: e.override_url.deep_view(),
        quality_check: e.quality_check,
        previous_parent_group: e.previous_parent_group,
        attachments: e.attachments.deep_view(),
        history: match e.history {
            Some(h) => Some(
                Seq::new(
                    h.entries@.len(),
                    |i: int|
                        if 0 <= i < h.entries@.len() {
                            entry_model(h.entries@[i])
                        } else {
                            arbitrary()
                        },
                ),
            ),
            None => None,
        },
    }
}

impl DeepView for Entry {
    type V = EntryModel;

    open spec fn deep_view(&self) -> EntryModel {
        entry_model(*self)
    }
}

impl DeepView for History {
    type V = Seq<EntryModel>;

    open spec fn deep_view(&self) -> Seq<EntryModel> {
        self.entries.deep_view()
    }
}

impl Entry {
    /// The history in the content of an entry is the content of its history.
    pub proof fn lemma_history(&self)
        ensures
            self.deep_view().history == self.history.deep_view(),
    {
        match self.history {
            Some(h) => {
                assert(self.deep_view().history->0 =~= h.entries.deep_view());
            },
            None => {},
        }
    }
}

impl EntryModel {
    /// An entry in which nothing is set and nothing is archived.
    pub open spec fn blank(id: EntryId, parent: GroupId) -> Self {
        EntryModel {
            id,
            parent,
            fields: Map::empty(),
            autotype: None,
            tags: Seq::empty(),
            times: Times::unknown(),
            custom_data: Map::empty(),
            icon: None,
            foreground_color: None,
            background_color: None,
            override_url: None,
            quality_check: None,
            previous_parent_group: None,
            attachments: Map::empty(),
            history: Some(Seq::empty()),
        }
    }

    /// The entry with its history replaced.
    pub open spec fn with_history(self, history: Option<Seq<EntryModel>>) -> Self {
        EntryModel { history, ..self }
    }
}

impl Clone for Entry {
    fn clone(&self) -> (copy: Self)
        ensures
            copy.deep_view() == self.deep_view(),
        decreases self,
    {
        let history = match &self.history {
            None => None,
            Some(h) => {
                let mut entries: Vec<Entry> = Vec::new();
                let mut i: usize = 0;
                while i < h.entries.len()
                    invariant
                        i <= h.entries.len(),
                        entries.len() == i,
                        self.history == Some(*h),
                        forall|j: int|
                            #![trigger entries@[j]]
                            0 <= j < i ==> entry_model(entries@[j]) == entry_model(h.entries@[j]),
                    decreases h.entries.len() - i,
                {
                    assert(decreases_to!(*self => self.history->0.entries@[i as int]));
                    entries.push(h.entries[i].clone());
                    i = i + 1;
                }
                Some(History { entries })
            },
        };
        let copy = Entry {
            id: self.id,
            parent: self.parent,
            fields: self.fields.duplicate(),
            autotype: self.autotype.duplicate(),
            tags: self.tags.duplicate(),
            times: self.times,
            custom_data: self.custom_data.duplicate(),
            icon: self.icon,
            foreground_color: self.foreground_color,
            background_color: self.background_color,
            override_url: self.override_url.duplicate(),
            quality_check: self.quality_check,
            previous_parent_group: self.previous_parent_group,
            attachments: self.attachments.duplicate(),
            history,
        };
        assert(copy.deep_view().history is Some ==> copy.deep_view().history->0 =~= self.deep_view().history->0);
        copy
    }
}

impl Entry {
    /// An entry in which nothing is set and nothing is archived.
    pub fn new(id: EntryId, parent: GroupId) -> (entry: Self)
        ensures
            entry.deep_view() == EntryModel::blank(id, parent),
    {
        let entry = Entry {
            id,
            parent,
            fields: TextMap::new(),
            autotype: None,
            tags: Vec::new(),
            times: Times::default(),
            custom_data: TextMap::new(),
            icon: None,
            foreground_color: None,
            background_color: None,
            override_url: None,
            quality_check: None,
            previous_parent_group: None,
            attachments: TextMap::new(),
            history: Some(History { entries: Vec::new() }),
        };
        assert(entry.tags.deep_view() =~= Seq::<Seq<char>>::empty());
        assert(entry.deep_view().history->0 =~= Seq::<EntryModel>::empty());
        entry
    }

    /// The text of a field, whether it is protected or not.
    pub fn get(&self, field: &str) -> (text: Option<&str>)
        ensures
            match text {
                Some(t) => self.deep_view().fields.contains_key(field@) && self.deep_view().fields[field@].data()
                    == t@,
                None => !self.deep_view().fields.contains_key(field@),
            },
    {
        match self.fields.get(field) {
            Some(value) => Some(value.get().as_str()),
            None => None,
        }
    }

    /// Sets a field to a text that is not protected.
    pub fn set_unprotected(&mut self, field: &str, text: &str)
        ensures
            final(self).deep_view() == (EntryModel {
                fields: old(self).deep_view().fields.insert(field@, Value::Unprotected(text@)),
                ..old(self).deep_view()
            }),
    {
        let mut fields: TextMap<Value<String>> = self.fields.duplicate();
        fields.insert(field.to_owned(), Value::Unprotected(text.to_owned()));
        self.fields = fields;
        proof {
            old(self).lemma_history();
            self.lemma_history();
        }
    }
}

impl History {
    /// Puts a version in front of the others. What it carries as a history of its own is left out.
    pub fn add_entry(&mut self, entry: Entry)
        ensures
            final(self).deep_view() == seq![entry.deep_view().with_history(None)] + old(self).deep_view(),
    {
        let mut archived: Entry = entry;
        archived.history = None;
        let ghost a = archived;
        self.entries.insert(0, archived);
        assert(a.deep_view() == entry.deep_view().with_history(None));
        assert(self.deep_view() =~= seq![entry.deep_view().with_history(None)] + old(self).deep_view());
    }
}

impl Clone for History {
    fn clone(&self) -> (copy: Self)
        ensures
            copy.deep_view() == self.deep_view(),
    {
        let mut entries: Vec<Entry> = Vec::new();
        let mut i: usize = 0;
        while i < self.entries.len()
            invariant
                i <= self.entries.len(),
                entries.len() == i,
                forall|j: int| #![trigger entries@[j]] 0 <= j < i ==> entries@[j].deep_view() == self.entries@[j].deep_view(),
            decreases self.entries.len() - i,
        {
            entries.push(self.entries[i].clone());
            i = i + 1;
        }
        let copy = History { entries };
        assert(copy.deep_view() =~= self.deep_view());
        copy
    }
}

} // verus!

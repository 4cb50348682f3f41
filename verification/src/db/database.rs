//! The database: its tables of objects, and the basic operations on them.
use std::collections::HashMap;

use vstd::prelude::*;
use vstd::std_specs::cmp::PartialEqSpecImpl;

use crate::datetime::NaiveDateTime;
use crate::datum::Datum;
use crate::db::attachment::{Attachment, AttachmentModel};
use crate::db::entry::{Entry, EntryModel};
use crate::db::group::{Group, GroupModel};
use crate::db::icon::{CustomIcon, CustomIconModel};
use crate::db::tree::{
    ancestor, cut, lemma_add_leaf, lemma_ancestor_first, lemma_cut, lemma_reparent,
    lemma_within_self, lemma_within_step, rooted, within, within_any, Tree,
};
use crate::ids::{AttachmentId, CustomIconId, EntryId, GroupId, Uuid};

verus! {

broadcast use vstd::std_specs::hash::group_hash_axioms;

/// A password database: groups in a tree, the entries in them, the files and images that these
/// refer to, and a record of what was deleted.
#[derive(Debug)]
pub struct Database {
    root: GroupId,
    groups: HashMap<Uuid, Group>,
    entries: HashMap<Uuid, Entry>,
    attachments: HashMap<usize, Attachment>,
    custom_icons: HashMap<Uuid, CustomIcon>,
    deleted_objects: HashMap<Uuid, Option<NaiveDateTime>>,
}

/// The content of a database.
pub struct DatabaseModel {
    pub root: GroupId,
    pub groups: Map<GroupId, GroupModel>,
    pub entries: Map<EntryId, EntryModel>,
    pub attachments: Map<AttachmentId, AttachmentModel>,
    pub custom_icons: Map<CustomIconId, CustomIconModel>,
    /// When an object was deleted, by its identifier; the moment may be unknown.
    pub deleted_objects: Map<Uuid, Option<NaiveDateTime>>,
}

/// Each group of a table with its parent.
pub open spec fn parents(groups: Map<GroupId, GroupModel>) -> Tree {
    Map::new(|g: GroupId| groups.contains_key(g), |g: GroupId| groups[g].parent)
}

impl DatabaseModel {
    /// Each group with its parent.
    pub open spec fn tree(self) -> Tree {
        parents(self.groups)
    }

    /// Every object is stored under its own identifier, the groups form a tree, and every entry
    /// stands in a group of the database.
    pub open spec fn wf(self) -> bool {
        &&& rooted(self.tree(), self.root)
        &&& forall|g: GroupId| #[trigger] self.groups.contains_key(g) ==> self.groups[g].id == g
        &&& forall|e: EntryId| #[trigger]
            self.entries.contains_key(e) ==> self.entries[e].id == e && self.groups.contains_key(self.entries[e].parent)
        &&& forall|a: AttachmentId| #[trigger] self.attachments.contains_key(a) ==> self.attachments[a].id == a
        &&& forall|i: CustomIconId| #[trigger] self.custom_icons.contains_key(i) ==> self.custom_icons[i].id == i
    }
}

impl View for Database {
    type V = DatabaseModel;

    closed spec fn view(&self) -> DatabaseModel {
        DatabaseModel {
            root: self.root,
            groups: Map::new(
                |g: GroupId| self.groups@.contains_key(g.uuid),
                |g: GroupId| self.groups@[g.uuid].deep_view(),
            ),
            entries: Map::new(
                |e: EntryId| self.entries@.contains_key(e.uuid),
                |e: EntryId| self.entries@[e.uuid].deep_view(),
            ),
            attachments: Map::new(
                |a: AttachmentId| self.attachments@.contains_key(a.number),
                |a: AttachmentId| self.attachments@[a.number].deep_view(),
            ),
            custom_icons: Map::new(
                |i: CustomIconId| self.custom_icons@.contains_key(i.uuid),
                |i: CustomIconId| self.custom_icons@[i.uuid].deep_view(),
            ),
            deleted_objects: self.deleted_objects@,
        }
    }
}

/// Every history is short enough for its positions to be counted.
pub open spec fn histories_fit(db: DatabaseModel) -> bool {
    forall|e: EntryId| #[trigger]
        db.entries.contains_key(e) && db.entries[e].history is Some ==> db.entries[e].history->0.len() <= usize::MAX
}

impl Database {
    /// What a database holds fits into memory, and so do its histories.
    pub proof fn lemma_histories_fit(&self)
        ensures
            histories_fit(self@),
    {
        assert forall|e: EntryId| #[trigger] self@.entries.contains_key(e) && self@.entries[e].history is Some implies self@.entries[e].history->0.len()
            <= usize::MAX by {
            let entry = self.entries@[e.uuid];
            entry.lemma_history();
            assert(entry.history->0.entries.len() <= usize::MAX);
        }
    }
}

/// The keys of a table, in the order in which it is walked.
fn table_keys<K: Copy + Eq + std::hash::Hash, V>(table: &HashMap<K, V>) -> (keys: Vec<K>)
    requires
        vstd::std_specs::hash::obeys_key_model::<K>(),
    ensures
        keys@.no_duplicates(),
        forall|k: K| #[trigger] keys@.contains(k) <==> table@.contains_key(k),
{
    let mut keys: Vec<K> = Vec::new();
    let walk = table.keys();
    for k in it: walk
        invariant
            keys@ =~= it.seq().take(it.index()).unref(),
            it.seq().unref().to_set() == table@.dom(),
            it.index() == it.seq().len() ==> keys@ =~= it.seq().unref(),
    {
        keys.push(*k);
    }
    assert(keys@.to_set() == table@.dom());
    assert forall|k: K| #[trigger] keys@.contains(k) <==> table@.contains_key(k) by {
        assert(keys@.to_set().contains(k) <==> keys@.contains(k));
    }
    keys
}

impl Database {
    /// A database with nothing but a root group.
    pub fn new_with_root_id(root: GroupId) -> (db: Self)
        ensures
            db@ == (DatabaseModel {
                root,
                groups: Map::empty().insert(root, GroupModel::blank(root, None)),
                entries: Map::empty(),
                attachments: Map::empty(),
                custom_icons: Map::empty(),
                deleted_objects: Map::empty(),
            }),
            db@.wf(),
    {
        let mut groups: HashMap<Uuid, Group> = HashMap::new();
        groups.insert(root.uuid, Group::new(root, None));
        let db = Database {
            root,
            groups,
            entries: HashMap::new(),
            attachments: HashMap::new(),
            custom_icons: HashMap::new(),
            deleted_objects: HashMap::new(),
        };
        assert(db@.groups =~= Map::empty().insert(root, GroupModel::blank(root, None)));
        assert(db@.entries =~= Map::empty());
        assert(db@.attachments =~= Map::empty());
        assert(db@.custom_icons =~= Map::empty());
        proof {
            lemma_within_self(db@.tree(), root);
        }
        db
    }

    /// The root group.
    pub fn root_id(&self) -> (id: GroupId)
        ensures
            id == self@.root,
    {
        self.root
    }

    /// The identifiers of all groups.
    pub fn group_ids(&self) -> (ids: Vec<GroupId>)
        ensures
            ids@.no_duplicates(),
            forall|g: GroupId| #[trigger] ids@.contains(g) <==> self@.groups.contains_key(g),
    {
        let keys = table_keys(&self.groups);
        let mut ids: Vec<GroupId> = Vec::new();
        let mut i: usize = 0;
        while i < keys.len()
            invariant
                i <= keys.len(),
                ids@ =~= keys@.take(i as int).map_values(|k: Uuid| GroupId { uuid: k }),
            decreases keys.len() - i,
        {
            ids.push(GroupId { uuid: keys[i] });
            i = i + 1;
        }
        assert(ids@ =~= keys@.map_values(|k: Uuid| GroupId { uuid: k }));
        assert forall|g: GroupId| #[trigger] ids@.contains(g) <==> self@.groups.contains_key(g) by {
            if ids@.contains(g) {
                let j = choose|j: int| 0 <= j < ids@.len() && ids@[j] == g;
                assert(keys@.contains(keys@[j]));
            }
            if self@.groups.contains_key(g) {
                assert(keys@.contains(g.uuid));
                let j = choose|j: int| 0 <= j < keys@.len() && keys@[j] == g.uuid;
                assert(ids@[j] == g);
            }
        }
        ids
    }

    /// The identifiers of all entries.
    pub fn entry_ids(&self) -> (ids: Vec<EntryId>)
        ensures
            ids@.no_duplicates(),
            forall|e: EntryId| #[trigger] ids@.contains(e) <==> self@.entries.contains_key(e),
    {
        let keys = table_keys(&self.entries);
        let mut ids: Vec<EntryId> = Vec::new();
        let mut i: usize = 0;
        while i < keys.len()
            invariant
                i <= keys.len(),
                ids@ =~= keys@.take(i as int).map_values(|k: Uuid| EntryId { uuid: k }),
            decreases keys.len() - i,
        {
            ids.push(EntryId { uuid: keys[i] });
            i = i + 1;
        }
        assert(ids@ =~= keys@.map_values(|k: Uuid| EntryId { uuid: k }));
        assert forall|e: EntryId| #[trigger] ids@.contains(e) <==> self@.entries.contains_key(e) by {
            if ids@.contains(e) {
                let j = choose|j: int| 0 <= j < ids@.len() && ids@[j] == e;
                assert(keys@.contains(keys@[j]));
            }
            if self@.entries.contains_key(e) {
                assert(keys@.contains(e.uuid));
                let j = choose|j: int| 0 <= j < keys@.len() && keys@[j] == e.uuid;
                assert(ids@[j] == e);
            }
        }
        ids
    }

    /// The identifiers of all attachments.
    pub fn attachment_ids(&self) -> (ids: Vec<AttachmentId>)
        ensures
            ids@.no_duplicates(),
            forall|a: AttachmentId| #[trigger] ids@.contains(a) <==> self@.attachments.contains_key(a),
    {
        let keys = table_keys(&self.attachments);
        let mut ids: Vec<AttachmentId> = Vec::new();
        let mut i: usize = 0;
        while i < keys.len()
            invariant
                i <= keys.len(),
                ids@ =~= keys@.take(i as int).map_values(|k: usize| AttachmentId { number: k }),
            decreases keys.len() - i,
        {
            ids.push(AttachmentId { number: keys[i] });
            i = i + 1;
        }
        assert(ids@ =~= keys@.map_values(|k: usize| AttachmentId { number: k }));
        assert forall|a: AttachmentId| #[trigger] ids@.contains(a) <==> self@.attachments.contains_key(a) by {
            if ids@.contains(a) {
                let j = choose|j: int| 0 <= j < ids@.len() && ids@[j] == a;
                assert(keys@.contains(keys@[j]));
            }
            if self@.attachments.contains_key(a) {
                assert(keys@.contains(a.number));
                let j = choose|j: int| 0 <= j < keys@.len() && keys@[j] == a.number;
                assert(ids@[j] == a);
            }
        }
        ids
    }

    /// The identifiers of all custom icons.
    pub fn custom_icon_ids(&self) -> (ids: Vec<CustomIconId>)
        ensures
            ids@.no_duplicates(),
            forall|i: CustomIconId| #[trigger] ids@.contains(i) <==> self@.custom_icons.contains_key(i),
    {
        let keys = table_keys(&self.custom_icons);
        let mut ids: Vec<CustomIconId> = Vec::new();
        let mut i: usize = 0;
        while i < keys.len()
            invariant
                i <= keys.len(),
                ids@ =~= keys@.take(i as int).map_values(|k: Uuid| CustomIconId { uuid: k }),
            decreases keys.len() - i,
        {
            ids.push(CustomIconId { uuid: keys[i] });
            i = i + 1;
        }
        assert(ids@ =~= keys@.map_values(|k: Uuid| CustomIconId { uuid: k }));
        assert forall|c: CustomIconId| #[trigger] ids@.contains(c) <==> self@.custom_icons.contains_key(c) by {
            if ids@.contains(c) {
                let j = choose|j: int| 0 <= j < ids@.len() && ids@[j] == c;
                assert(keys@.contains(keys@[j]));
            }
            if self@.custom_icons.contains_key(c) {
                assert(keys@.contains(c.uuid));
                let j = choose|j: int| 0 <= j < keys@.len() && keys@[j] == c.uuid;
                assert(ids@[j] == c);
            }
        }
        ids
    }

    /// A group, if the database has it.
    pub fn group(&self, id: GroupId) -> (found: Option<&Group>)
        ensures
            match found {
                Some(g) => self@.groups.contains_key(id) && self@.groups[id] == g.deep_view(),
                None => !self@.groups.contains_key(id),
            },
    {
        self.groups.get(&id.uuid)
    }

    /// An entry, if the database has it.
    pub fn entry(&self, id: EntryId) -> (found: Option<&Entry>)
        ensures
            match found {
                Some(e) => self@.entries.contains_key(id) && self@.entries[id] == e.deep_view(),
                None => !self@.entries.contains_key(id),
            },
    {
        self.entries.get(&id.uuid)
    }

    /// An attachment, if the database has it.
    pub fn attachment(&self, id: AttachmentId) -> (found: Option<&Attachment>)
        ensures
            match found {
                Some(a) => self@.attachments.contains_key(id) && self@.attachments[id] == a.deep_view(),
                None => !self@.attachments.contains_key(id),
            },
    {
        self.attachments.get(&id.number)
    }

    /// A custom icon, if the database has it.
    pub fn custom_icon(&self, id: CustomIconId) -> (found: Option<&CustomIcon>)
        ensures
            match found {
                Some(i) => self@.custom_icons.contains_key(id) && self@.custom_icons[id] == i.deep_view(),
                None => !self@.custom_icons.contains_key(id),
            },
    {
        self.custom_icons.get(&id.uuid)
    }

    /// The record of the deletion of an object, if there is one. The moment may be unknown.
    pub fn deletion(&self, uuid: Uuid) -> (found: Option<Option<NaiveDateTime>>)
        ensures
            match found {
                Some(t) => self@.deleted_objects.contains_key(uuid) && self@.deleted_objects[uuid] == t,
                None => !self@.deleted_objects.contains_key(uuid),
            },
    {
        match self.deleted_objects.get(&uuid) {
            Some(t) => Some(*t),
            None => None,
        }
    }

    /// Records that an object was deleted.
    pub fn record_deletion(&mut self, uuid: Uuid, time: Option<NaiveDateTime>)
        ensures
            final(self)@ == (DatabaseModel {
                deleted_objects: old(self)@.deleted_objects.insert(uuid, time),
                ..old(self)@
            }),
    {
        self.deleted_objects.insert(uuid, time);
    }

    /// Stores a group under its identifier.
    pub(crate) fn put_group(&mut self, group: Group)
        ensures
            final(self)@ == (DatabaseModel {
                groups: old(self)@.groups.insert(group.id, group.deep_view()),
                ..old(self)@
            }),
    {
        self.groups.insert(group.id.uuid, group);
        assert(self@.groups =~= old(self)@.groups.insert(group.id, group.deep_view()));
    }

    /// Stores an entry under its identifier.
    pub(crate) fn put_entry(&mut self, entry: Entry)
        ensures
            final(self)@ == (DatabaseModel {
                entries: old(self)@.entries.insert(entry.id, entry.deep_view()),
                ..old(self)@
            }),
    {
        self.entries.insert(entry.id.uuid, entry);
        assert(self@.entries =~= old(self)@.entries.insert(entry.id, entry.deep_view()));
    }

    /// Stores an attachment under its identifier.
    pub(crate) fn put_attachment(&mut self, attachment: Attachment)
        ensures
            final(self)@ == (DatabaseModel {
                attachments: old(self)@.attachments.insert(attachment.id, attachment.deep_view()),
                ..old(self)@
            }),
    {
        self.attachments.insert(attachment.id.number, attachment);
        assert(self@.attachments =~= old(self)@.attachments.insert(attachment.id, attachment.deep_view()));
    }

    /// Stores a custom icon under its identifier.
    pub(crate) fn put_custom_icon(&mut self, icon: CustomIcon)
        ensures
            final(self)@ == (DatabaseModel {
                custom_icons: old(self)@.custom_icons.insert(icon.id, icon.deep_view()),
                ..old(self)@
            }),
    {
        self.custom_icons.insert(icon.id.uuid, icon);
        assert(self@.custom_icons =~= old(self)@.custom_icons.insert(icon.id, icon.deep_view()));
    }

    /// Takes a group out of the table, and nothing else.
    fn drop_group(&mut self, id: GroupId)
        ensures
            final(self)@ == (DatabaseModel { groups: old(self)@.groups.remove(id), ..old(self)@ }),
    {
        self.groups.remove(&id.uuid);
        assert(self@.groups =~= old(self)@.groups.remove(id));
    }

    /// Takes an attachment out, if the database has it.
    pub(crate) fn take_attachment(&mut self, id: AttachmentId) -> (taken: Option<Attachment>)
        ensures
            final(self)@ == (DatabaseModel { attachments: old(self)@.attachments.remove(id), ..old(self)@ }),
            match taken {
                Some(a) => old(self)@.attachments.contains_key(id) && old(self)@.attachments[id] == a.deep_view(),
                None => !old(self)@.attachments.contains_key(id),
            },
    {
        let taken = self.attachments.remove(&id.number);
        assert(self@.attachments =~= old(self)@.attachments.remove(id));
        taken
    }

    /// Takes a custom icon out, if the database has it.
    pub(crate) fn take_custom_icon(&mut self, id: CustomIconId) -> (taken: Option<CustomIcon>)
        ensures
            final(self)@ == (DatabaseModel { custom_icons: old(self)@.custom_icons.remove(id), ..old(self)@ }),
            match taken {
                Some(i) => old(self)@.custom_icons.contains_key(id) && old(self)@.custom_icons[id] == i.deep_view(),
                None => !old(self)@.custom_icons.contains_key(id),
            },
    {
        let taken = self.custom_icons.remove(&id.uuid);
        assert(self@.custom_icons =~= old(self)@.custom_icons.remove(id));
        taken
    }
}

/// Why a group could not be moved.
#[derive(Clone, Copy, Debug, PartialEq, Eq, Structural)]
pub enum MoveGroupError {
    /// The root of a database stays where it is.
    RootGroup,
    /// There is no group to move to.
    DestinationNotFound(GroupId),
    /// A group cannot be moved into itself or into a group below it.
    IntoOwnSubtree,
}

/// The database without some groups and without everything in them.
pub open spec fn without_groups(db: DatabaseModel, tops: Set<GroupId>) -> DatabaseModel {
    DatabaseModel {
        groups: db.groups.remove_keys(Set::new(|g: GroupId| within_any(db.tree(), g, tops))),
        entries: db.entries.remove_keys(
            Set::new(
                |e: EntryId| db.entries.contains_key(e) && within_any(db.tree(), db.entries[e].parent, tops),
            ),
        ),
        ..db
    }
}

/// Removing groups leaves a database well formed.
pub proof fn lemma_without_groups_wf(db: DatabaseModel, tops: Set<GroupId>)
    requires
        db.wf(),
        !tops.contains(db.root),
    ensures
        without_groups(db, tops).wf(),
        without_groups(db, tops).tree() == cut(db.tree(), tops),
{
    let out = without_groups(db, tops);
    assert(out.tree() =~= cut(db.tree(), tops));
    lemma_cut(db.tree(), db.root, tops);
    assert forall|e: EntryId| #[trigger] out.entries.contains_key(e) implies out.entries[e].id == e
        && out.groups.contains_key(out.entries[e].parent) by {
        assert(db.entries.contains_key(e));
    }
}

/// Removing groups one after the other is removing them together.
pub proof fn lemma_without_groups_twice(db: DatabaseModel, tops: Set<GroupId>, top: GroupId)
    requires
        db.wf(),
        !tops.contains(db.root),
    ensures
        without_groups(without_groups(db, tops), set![top]) == without_groups(db, tops.insert(top)),
{
    let mid = without_groups(db, tops);
    lemma_without_groups_wf(db, tops);
    lemma_cut(db.tree(), db.root, tops);
    let t = db.tree();
    assert forall|g: GroupId| within_any(t, g, tops.insert(top)) <==> within_any(t, g, tops) || within(t, g, top) by {
        if within_any(t, g, tops.insert(top)) {
            let x = choose|x: GroupId| tops.insert(top).contains(x) && #[trigger] within(t, g, x);
            assert(x == top || tops.contains(x));
        }
        if within_any(t, g, tops) {
            let x = choose|x: GroupId| tops.contains(x) && #[trigger] within(t, g, x);
            assert(tops.insert(top).contains(x));
        }
        if within(t, g, top) {
            assert(tops.insert(top).contains(top));
        }
    }
    assert forall|g: GroupId| mid.groups.contains_key(g) implies (within_any(mid.tree(), g, set![top]) <==> within(
        t,
        g,
        top,
    )) by {
        assert(cut(t, tops).contains_key(g));
        assert(within(mid.tree(), g, top) <==> within(t, g, top));
        assert(set![top].contains(top));
        if within_any(mid.tree(), g, set![top]) {
            let x = choose|x: GroupId| set![top].contains(x) && #[trigger] within(mid.tree(), g, x);
            assert(x == top);
        }
    }
    let a = without_groups(mid, set![top]);
    let b = without_groups(db, tops.insert(top));
    assert(a.groups =~= b.groups);
    assert(a.entries =~= b.entries);
}

/// Removing no group changes nothing.
pub proof fn lemma_without_no_groups(db: DatabaseModel)
    ensures
        without_groups(db, Set::empty()) == db,
{
    let out = without_groups(db, Set::empty());
    assert(out.groups =~= db.groups);
    assert(out.entries =~= db.entries);
}

impl Database {
    /// Whether a group is `top` or lies below it.
    pub fn is_within(&self, group: GroupId, top: GroupId) -> (inside: bool)
        requires
            self@.wf(),
            self@.groups.contains_key(group),
        ensures
            inside == within(self@.tree(), group, top),
    {
        let mut at: GroupId = group;
        let ghost t = self@.tree();
        assert(t.contains_key(group));
        let ghost mut depth: nat = choose|n: nat| ancestor(t, group, n) == Some(self@.root);
        while at != top
            invariant
                t == self@.tree(),
                self@.wf(),
                t.contains_key(at),
                ancestor(t, at, depth) == Some(self@.root),
                within(t, group, top) <==> within(t, at, top),
            decreases depth,
        {
            proof {
                lemma_within_step(t, at, top);
                if depth > 0 {
                    lemma_ancestor_first(t, at, depth);
                }
            }
            let parent: Option<GroupId> = match self.group(at) {
                Some(g) => g.parent,
                None => None,
            };
            match parent {
                Some(p) => {
                    at = p;
                    proof {
                        depth = (depth - 1) as nat;
                    }
                },
                None => {
                    return false;
                },
            }
        }
        proof {
            lemma_within_self(t, top);
        }
        true
    }

    /// Adds an empty group below another one.
    pub fn add_group_with_id(&mut self, parent: GroupId, id: GroupId)
        requires
            old(self)@.wf(),
            old(self)@.groups.contains_key(parent),
            !old(self)@.groups.contains_key(id),
        ensures
            final(self)@ == (DatabaseModel {
                groups: old(self)@.groups.insert(id, GroupModel::blank(id, Some(parent))),
                ..old(self)@
            }),
            final(self)@.wf(),
    {
        self.put_group(Group::new(id, Some(parent)));
        proof {
            lemma_add_leaf(old(self)@.tree(), old(self)@.root, id, parent);
            assert(self@.tree() =~= old(self)@.tree().insert(id, Some(parent)));
        }
    }

    /// Adds an empty entry to a group.
    pub fn add_entry_with_id(&mut self, parent: GroupId, id: EntryId)
        requires
            old(self)@.wf(),
            old(self)@.groups.contains_key(parent),
            !old(self)@.entries.contains_key(id),
        ensures
            final(self)@ == (DatabaseModel {
                entries: old(self)@.entries.insert(id, EntryModel::blank(id, parent)),
                ..old(self)@
            }),
            final(self)@.wf(),
    {
        self.put_entry(Entry::new(id, parent));
    }

    /// Moves a group, with everything in it, to another parent.
    pub fn move_group(&mut self, id: GroupId, parent: GroupId) -> (moved: Result<(), MoveGroupError>)
        requires
            old(self)@.wf(),
            old(self)@.groups.contains_key(id),
        ensures
            final(self)@.wf(),
            moved == (if id == old(self)@.root {
                Err::<(), MoveGroupError>(MoveGroupError::RootGroup)
            } else if !old(self)@.groups.contains_key(parent) {
                Err(MoveGroupError::DestinationNotFound(parent))
            } else if within(old(self)@.tree(), parent, id) {
                Err(MoveGroupError::IntoOwnSubtree)
            } else {
                Ok(())
            }),
            final(self)@ == (if moved is Ok {
                DatabaseModel {
                    groups: old(self)@.groups.insert(
                        id,
                        GroupModel { parent: Some(parent), ..old(self)@.groups[id] },
                    ),
                    ..old(self)@
                }
            } else {
                old(self)@
            }),
    {
        if id == self.root {
            return Err(MoveGroupError::RootGroup);
        }
        if self.group(parent).is_none() {
            return Err(MoveGroupError::DestinationNotFound(parent));
        }
        if self.is_within(parent, id) {
            return Err(MoveGroupError::IntoOwnSubtree);
        }
        match self.group(id) {
            Some(group) => {
                let mut group: Group = group.clone();
                group.parent = Some(parent);
                self.put_group(group);
                proof {
                    assert(old(self)@.groups.contains_key(id));
                    lemma_reparent(old(self)@.tree(), old(self)@.root, id, parent);
                    assert(self@.tree() =~= old(self)@.tree().insert(id, Some(parent)));
                }
            },
            None => {},
        }
        Ok(())
    }

    /// Removes a group with everything in it. The root cannot be removed.
    pub fn remove_group(&mut self, id: GroupId) -> (removed: bool)
        requires
            old(self)@.wf(),
        ensures
            removed == (id != old(self)@.root && old(self)@.groups.contains_key(id)),
            final(self)@ == (if removed {
                without_groups(old(self)@, set![id])
            } else {
                old(self)@
            }),
            final(self)@.wf(),
    {
        if id == self.root || self.group(id).is_none() {
            return false;
        }
        let ghost before = self@;
        let ghost t = self@.tree();
        let ghost tops = set![id];
        proof {
            assert forall|g: GroupId| within_any(t, g, tops) <==> within(t, g, id) by {
                assert(tops.contains(id));
                if within_any(t, g, tops) {
                    let x = choose|x: GroupId| tops.contains(x) && #[trigger] within(t, g, x);
                    assert(x == id);
                }
            }
            lemma_without_groups_wf(before, tops);
        }
        let groups: Vec<GroupId> = self.group_ids();
        let entries: Vec<EntryId> = self.entry_ids();
        // What is to go is settled before anything goes.
        let mut doomed_entries: Vec<EntryId> = Vec::new();
        let mut i: usize = 0;
        while i < entries.len()
            invariant
                i <= entries.len(),
                self@ == before,
                before.wf(),
                t == before.tree(),
                forall|e: EntryId| #[trigger] entries@.contains(e) <==> before.entries.contains_key(e),
                forall|e: EntryId| #[trigger]
                    doomed_entries@.contains(e) <==> entries@.take(i as int).contains(e) && within(
                        t,
                        before.entries[e].parent,
                        id,
                    ),
            decreases entries.len() - i,
        {
            assert(entries@.contains(entries@[i as int]));
            let ghost seen = doomed_entries@;
            match self.entry(entries[i]) {
                Some(entry) => {
                    if self.is_within(entry.parent, id) {
                        doomed_entries.push(entries[i]);
                    }
                },
                None => {},
            }
            proof {
                assert(entries@.take(i + 1) =~= entries@.take(i as int).push(entries@[i as int]));
                lemma_push_contains(entries@.take(i as int), entries@[i as int]);
                lemma_push_contains(seen, entries@[i as int]);
            }
            i = i + 1;
        }
        let mut doomed_groups: Vec<GroupId> = Vec::new();
        let mut i: usize = 0;
        while i < groups.len()
            invariant
                i <= groups.len(),
                self@ == before,
                before.wf(),
                t == before.tree(),
                forall|g: GroupId| #[trigger] groups@.contains(g) <==> before.groups.contains_key(g),
                forall|g: GroupId| #[trigger]
                    doomed_groups@.contains(g) <==> groups@.take(i as int).contains(g) && within(t, g, id),
            decreases groups.len() - i,
        {
            assert(groups@.contains(groups@[i as int]));
            let ghost seen = doomed_groups@;
            if self.is_within(groups[i], id) {
                doomed_groups.push(groups[i]);
            }
            proof {
                assert(groups@.take(i + 1) =~= groups@.take(i as int).push(groups@[i as int]));
                lemma_push_contains(groups@.take(i as int), groups@[i as int]);
                lemma_push_contains(seen, groups@[i as int]);
            }
            i = i + 1;
        }
        assert(groups@.take(groups@.len() as int) =~= groups@);
        assert(entries@.take(entries@.len() as int) =~= entries@);
        let mut i: usize = 0;
        assert(self@.entries =~= before.entries.remove_keys(doomed_entries@.take(0).to_set()));
        while i < doomed_entries.len()
            invariant
                i <= doomed_entries.len(),
                self@ == (DatabaseModel {
                    entries: before.entries.remove_keys(doomed_entries@.take(i as int).to_set()),
                    ..before
                }),
            decreases doomed_entries.len() - i,
        {
            self.remove_entry(doomed_entries[i]);
            proof {
                assert(doomed_entries@.take(i + 1) =~= doomed_entries@.take(i as int).push(doomed_entries@[i as int]));
                lemma_push_contains(doomed_entries@.take(i as int), doomed_entries@[i as int]);
                assert(self@.entries =~= before.entries.remove_keys(doomed_entries@.take(i + 1).to_set()));
            }
            i = i + 1;
        }
        let ghost mid = self@;
        let mut i: usize = 0;
        assert(self@.groups =~= before.groups.remove_keys(doomed_groups@.take(0).to_set()));
        while i < doomed_groups.len()
            invariant
                i <= doomed_groups.len(),
                mid.groups == before.groups,
                self@ == (DatabaseModel {
                    groups: before.groups.remove_keys(doomed_groups@.take(i as int).to_set()),
                    ..mid
                }),
            decreases doomed_groups.len() - i,
        {
            self.drop_group(doomed_groups[i]);
            proof {
                assert(doomed_groups@.take(i + 1) =~= doomed_groups@.take(i as int).push(doomed_groups@[i as int]));
                lemma_push_contains(doomed_groups@.take(i as int), doomed_groups@[i as int]);
                assert(self@.groups =~= before.groups.remove_keys(doomed_groups@.take(i + 1).to_set()));
            }
            i = i + 1;
        }
        proof {
            assert(doomed_entries@.take(doomed_entries@.len() as int) =~= doomed_entries@);
            assert(doomed_groups@.take(doomed_groups@.len() as int) =~= doomed_groups@);
            let out = without_groups(before, tops);
            assert(self@.groups =~= out.groups);
            assert(self@.entries =~= out.entries);
        }
        true
    }

    /// Removes an entry.
    pub fn remove_entry(&mut self, id: EntryId)
        ensures
            final(self)@ == (DatabaseModel { entries: old(self)@.entries.remove(id), ..old(self)@ }),
            old(self)@.wf() ==> final(self)@.wf(),
    {
        self.entries.remove(&id.uuid);
        assert(self@.entries =~= old(self)@.entries.remove(id));
    }

    /// Replaces a group by another version of it, in the same place.
    pub fn update_group(&mut self, group: Group) -> (updated: bool)
        requires
            old(self)@.wf(),
        ensures
            updated == (old(self)@.groups.contains_key(group.id) && old(self)@.groups[group.id].parent
                == group.parent),
            final(self)@ == (if updated {
                DatabaseModel { groups: old(self)@.groups.insert(group.id, group.deep_view()), ..old(self)@ }
            } else {
                old(self)@
            }),
            final(self)@.wf(),
    {
        match self.group(group.id) {
            Some(known) => {
                let same_place = match (known.parent, group.parent) {
                    (Some(a), Some(b)) => a == b,
                    (None, None) => true,
                    _ => false,
                };
                if same_place {
                    self.put_group(group);
                    assert(self@.tree() =~= old(self)@.tree());
                }
                same_place
            },
            None => false,
        }
    }

    /// Replaces an entry by another version of it, which may stand in another group.
    pub fn update_entry(&mut self, entry: Entry) -> (updated: bool)
        requires
            old(self)@.wf(),
        ensures
            updated == (old(self)@.entries.contains_key(entry.id) && old(self)@.groups.contains_key(entry.parent)),
            final(self)@ == (if updated {
                DatabaseModel { entries: old(self)@.entries.insert(entry.id, entry.deep_view()), ..old(self)@ }
            } else {
                old(self)@
            }),
            final(self)@.wf(),
    {
        if self.entry(entry.id).is_none() || self.group(entry.parent).is_none() {
            return false;
        }
        self.put_entry(entry);
        true
    }
}

/// The next item of a list without duplicates is one that was not seen yet.
pub proof fn lemma_next_unseen<A>(items: Seq<A>, i: int)
    requires
        0 <= i < items.len(),
        items.no_duplicates(),
    ensures
        items.contains(items[i]),
        !items.take(i).contains(items[i]),
        forall|x: A| #[trigger] items.take(i + 1).contains(x) <==> items.take(i).contains(x) || x == items[i],
{
    let seen = items.take(i);
    assert(items.take(i + 1) =~= seen.push(items[i]));
    lemma_push_contains(seen, items[i]);
    if seen.contains(items[i]) {
        let j = choose|j: int| 0 <= j < seen.len() && seen[j] == items[i];
        assert(items[j] == items[i]);
    }
}

/// What a sequence with one more item contains.
pub proof fn lemma_push_contains<A>(s: Seq<A>, a: A)
    ensures
        forall|x: A| #[trigger] s.push(a).contains(x) <==> s.contains(x) || x == a,
{
    assert forall|x: A| #[trigger] s.push(a).contains(x) <==> s.contains(x) || x == a by {
        if s.contains(x) {
            let i = choose|i: int| 0 <= i < s.len() && s[i] == x;
            assert(s.push(a)[i] == x);
        }
        if x == a {
            assert(s.push(a)[s.len() as int] == x);
        }
    }
}

/// A copy of a table.
fn copy_table<K: Copy + Eq + std::hash::Hash, V: Datum>(table: &HashMap<K, V>) -> (copy: HashMap<K, V>)
    requires
        vstd::std_specs::hash::obeys_key_model::<K>(),
    ensures
        copy@.dom() == table@.dom(),
        forall|k: K| #[trigger] table@.contains_key(k) ==> copy@[k].deep_view() == table@[k].deep_view(),
{
    let keys: Vec<K> = table_keys(table);
    let mut copy: HashMap<K, V> = HashMap::new();
    let mut i: usize = 0;
    assert(keys@.take(0) =~= Seq::<K>::empty());
    while i < keys.len()
        invariant
            i <= keys@.len(),
            vstd::std_specs::hash::obeys_key_model::<K>(),
            forall|k: K| #[trigger] keys@.contains(k) <==> table@.contains_key(k),
            forall|k: K| #[trigger] copy@.contains_key(k) <==> keys@.take(i as int).contains(k),
            forall|k: K| #[trigger] copy@.contains_key(k) ==> copy@[k].deep_view() == table@[k].deep_view(),
        decreases keys@.len() - i,
    {
        proof {
            assert(keys@.contains(keys@[i as int]));
            assert(keys@.take(i + 1) =~= keys@.take(i as int).push(keys@[i as int]));
            lemma_push_contains(keys@.take(i as int), keys@[i as int]);
        }
        match table.get(&keys[i]) {
            Some(value) => {
                copy.insert(keys[i], value.duplicate());
            },
            None => {},
        }
        i = i + 1;
    }
    assert(keys@.take(keys@.len() as int) =~= keys@);
    assert forall|k: K| copy@.contains_key(k) <==> table@.contains_key(k) by {
        assert(keys@.contains(k) <==> table@.contains_key(k));
    }
    assert(copy@.dom() =~= table@.dom());
    copy
}

/// Whether another table has all items of a table.
fn table_within<K: Copy + Eq + std::hash::Hash, V: Datum>(a: &HashMap<K, V>, b: &HashMap<K, V>) -> (within: bool)
    requires
        vstd::std_specs::hash::obeys_key_model::<K>(),
    ensures
        within == forall|k: K| #[trigger]
            a@.contains_key(k) ==> b@.contains_key(k) && a@[k].deep_view() == b@[k].deep_view(),
{
    let keys: Vec<K> = table_keys(a);
    let mut i: usize = 0;
    while i < keys.len()
        invariant
            i <= keys@.len(),
            vstd::std_specs::hash::obeys_key_model::<K>(),
            forall|k: K| #[trigger] keys@.contains(k) <==> a@.contains_key(k),
            forall|j: int|
                0 <= j < i ==> b@.contains_key(#[trigger] keys@[j]) && a@[keys@[j]].deep_view()
                    == b@[keys@[j]].deep_view(),
        decreases keys@.len() - i,
    {
        assert(keys@.contains(keys@[i as int]));
        let same: bool = match (a.get(&keys[i]), b.get(&keys[i])) {
            (Some(x), Some(y)) => x.same(y),
            _ => false,
        };
        if !same {
            assert(a@.contains_key(keys@[i as int]));
            return false;
        }
        i = i + 1;
    }
    assert forall|k: K| #[trigger] a@.contains_key(k) implies b@.contains_key(k) && a@[k].deep_view()
        == b@[k].deep_view() by {
        assert(keys@.contains(k));
        let j = choose|j: int| 0 <= j < keys@.len() && keys@[j] == k;
        assert(b@.contains_key(keys@[j]));
    }
    true
}

impl Clone for Database {
    fn clone(&self) -> (copy: Self)
        ensures
            copy@ == self@,
    {
        let copy = Database {
            root: self.root,
            groups: copy_table(&self.groups),
            entries: copy_table(&self.entries),
            attachments: copy_table(&self.attachments),
            custom_icons: copy_table(&self.custom_icons),
            deleted_objects: copy_table(&self.deleted_objects),
        };
        proof {
            lemma_same_tables(copy, *self);
        }
        copy
    }
}

/// The tables of two databases have the same content.
spec fn same_tables(a: Database, b: Database) -> bool {
    &&& a.root == b.root
    &&& same_content(a.groups@, b.groups@)
    &&& same_content(a.entries@, b.entries@)
    &&& same_content(a.attachments@, b.attachments@)
    &&& same_content(a.custom_icons@, b.custom_icons@)
    &&& same_content(a.deleted_objects@, b.deleted_objects@)
}

/// Two tables have the same content.
spec fn same_content<K, V: DeepView>(a: Map<K, V>, b: Map<K, V>) -> bool {
    &&& forall|k: K| #[trigger]
        a.contains_key(k) ==> b.contains_key(k) && a[k].deep_view() == b[k].deep_view()
    &&& forall|k: K| #[trigger]
        b.contains_key(k) ==> a.contains_key(k) && b[k].deep_view() == a[k].deep_view()
}

/// Databases with the same tables have the same content, and the other way round.
proof fn lemma_same_tables(a: Database, b: Database)
    ensures
        same_tables(a, b) <==> a@ == b@,
{
    if same_tables(a, b) {
        assert(a@.groups =~= b@.groups);
        assert(a@.entries =~= b@.entries);
        assert(a@.attachments =~= b@.attachments);
        assert(a@.custom_icons =~= b@.custom_icons);
        assert forall|u: Uuid| a.deleted_objects@.contains_key(u) implies a.deleted_objects@[u]
            == b.deleted_objects@[u] by {
            assert(a.deleted_objects@[u].deep_view() == b.deleted_objects@[u].deep_view());
        }
        assert(a@.deleted_objects =~= b@.deleted_objects);
    }
    if a@ == b@ {
        assert forall|u: Uuid| a.groups@.contains_key(u) == b.groups@.contains_key(u) by {
            assert(a@.groups.contains_key(GroupId { uuid: u }) == b@.groups.contains_key(GroupId { uuid: u }));
        }
        assert forall|u: Uuid| a.groups@.contains_key(u) implies a.groups@[u].deep_view()
            == b.groups@[u].deep_view() by {
            assert(a@.groups[GroupId { uuid: u }] == b@.groups[GroupId { uuid: u }]);
        }
        assert forall|u: Uuid| a.entries@.contains_key(u) == b.entries@.contains_key(u) by {
            assert(a@.entries.contains_key(EntryId { uuid: u }) == b@.entries.contains_key(EntryId { uuid: u }));
        }
        assert forall|u: Uuid| a.entries@.contains_key(u) implies a.entries@[u].deep_view()
            == b.entries@[u].deep_view() by {
            assert(a@.entries[EntryId { uuid: u }] == b@.entries[EntryId { uuid: u }]);
        }
        assert forall|n: usize| a.attachments@.contains_key(n) == b.attachments@.contains_key(n) by {
            let id = AttachmentId { number: n };
            assert(a@.attachments.contains_key(id) == b@.attachments.contains_key(id));
        }
        assert forall|n: usize| a.attachments@.contains_key(n) implies a.attachments@[n].deep_view()
            == b.attachments@[n].deep_view() by {
            let id = AttachmentId { number: n };
            assert(a@.attachments[id] == b@.attachments[id]);
        }
        assert forall|u: Uuid| a.custom_icons@.contains_key(u) == b.custom_icons@.contains_key(u) by {
            let id = CustomIconId { uuid: u };
            assert(a@.custom_icons.contains_key(id) == b@.custom_icons.contains_key(id));
        }
        assert forall|u: Uuid| a.custom_icons@.contains_key(u) implies a.custom_icons@[u].deep_view()
            == b.custom_icons@[u].deep_view() by {
            let id = CustomIconId { uuid: u };
            assert(a@.custom_icons[id] == b@.custom_icons[id]);
        }
    }
}

impl PartialEq for Database {
    /// Whether two databases have the same content.
    fn eq(&self, other: &Self) -> (equal: bool) {
        let equal = self.root == other.root && table_within(&self.groups, &other.groups) && table_within(
            &other.groups,
            &self.groups,
        ) && table_within(&self.entries, &other.entries) && table_within(&other.entries, &self.entries)
            && table_within(&self.attachments, &other.attachments) && table_within(
            &other.attachments,
            &self.attachments,
        ) && table_within(&self.custom_icons, &other.custom_icons) && table_within(
            &other.custom_icons,
            &self.custom_icons,
        ) && table_within(&self.deleted_objects, &other.deleted_objects) && table_within(
            &other.deleted_objects,
            &self.deleted_objects,
        );
        proof {
            lemma_same_tables(*self, *other);
        }
        equal
    }
}

impl PartialEqSpecImpl for Database {
    open spec fn obeys_eq_spec() -> bool {
        true
    }

    open spec fn eq_spec(&self, other: &Self) -> bool {
        self@ == other@
    }
}

} // verus!

//! Copying and comparing the objects of a database.
use vstd::prelude::*;

use crate::datum::Datum;
use crate::db::attachment::Attachment;
use crate::db::entry::Entry;
use crate::db::group::Group;
use crate::db::icon::CustomIcon;
use crate::ids::{EntryId, GroupId};

verus! {

impl Clone for Attachment {
    fn clone(&self) -> (copy: Self)
        ensures
            copy.deep_view() == self.deep_view(),
    {
        let mut entries: Vec<(EntryId, Option<usize>)> = Vec::new();
        let mut i: usize = 0;
        while i < self.entries.len()
            invariant
                i <= self.entries@.len(),
                entries@ =~= self.entries@.take(i as int),
            decreases self.entries@.len() - i,
        {
            entries.push(self.entries[i]);
            i = i + 1;
        }
        assert(entries@ =~= self.entries@);
        Attachment { id: self.id, entries, data: self.data.duplicate() }
    }
}

impl Clone for CustomIcon {
    fn clone(&self) -> (copy: Self)
        ensures
            copy.deep_view() == self.deep_view(),
    {
        let mut entries: Vec<(EntryId, Option<usize>)> = Vec::new();
        let mut i: usize = 0;
        while i < self.entries.len()
            invariant
                i <= self.entries@.len(),
                entries@ =~= self.entries@.take(i as int),
            decreases self.entries@.len() - i,
        {
            entries.push(self.entries[i]);
            i = i + 1;
        }
        assert(entries@ =~= self.entries@);
        let groups: Vec<GroupId> = self.groups.duplicate();
        assert(groups@ =~= groups.deep_view() && self.groups@ =~= self.groups.deep_view());
        let data: Vec<u8> = self.data.duplicate();
        assert(data@ =~= data.deep_view() && self.data@ =~= self.data.deep_view());
        CustomIcon {
            id: self.id,
            entries,
            groups,
            data,
            name: self.name.duplicate(),
            last_modification_time: self.last_modification_time,
        }
    }
}

/// Whether two places are the same.
fn same_place(a: (EntryId, Option<usize>), b: (EntryId, Option<usize>)) -> (same: bool)
    ensures
        same == (a == b),
{
    a.0 == b.0 && match (a.1, b.1) {
        (Some(i), Some(j)) => i == j,
        (None, None) => true,
        _ => false,
    }
}

/// Whether all places of a list are in another one.
fn places_within(a: &Vec<(EntryId, Option<usize>)>, b: &Vec<(EntryId, Option<usize>)>) -> (within: bool)
    ensures
        within == a@.to_set().subset_of(b@.to_set()),
{
    let mut i: usize = 0;
    while i < a.len()
        invariant
            i <= a@.len(),
            forall|k: int| 0 <= k < i ==> b@.contains(#[trigger] a@[k]),
        decreases a@.len() - i,
    {
        let mut j: usize = 0;
        while j < b.len() && !same_place(a[i], b[j])
            invariant
                i < a@.len(),
                j <= b@.len(),
                forall|k: int| 0 <= k < j ==> a@[i as int] != #[trigger] b@[k],
            decreases b@.len() - j,
        {
            j = j + 1;
        }
        if j == b.len() {
            proof {
                assert(a@.to_set().contains(a@[i as int]));
                assert(!b@.contains(a@[i as int]));
                assert(!b@.to_set().contains(a@[i as int]));
            }
            return false;
        }
        assert(b@.contains(b@[j as int]));
        i = i + 1;
    }
    assert forall|x: (EntryId, Option<usize>)| a@.to_set().contains(x) implies b@.to_set().contains(x) by {
        let k = choose|k: int| 0 <= k < a@.len() && a@[k] == x;
        assert(b@.contains(a@[k]));
    }
    true
}

/// Whether all groups of a list are in another one.
fn groups_within(a: &Vec<GroupId>, b: &Vec<GroupId>) -> (within: bool)
    ensures
        within == a@.to_set().subset_of(b@.to_set()),
{
    let mut i: usize = 0;
    while i < a.len()
        invariant
            i <= a@.len(),
            forall|k: int| 0 <= k < i ==> b@.contains(#[trigger] a@[k]),
        decreases a@.len() - i,
    {
        let mut j: usize = 0;
        while j < b.len() && a[i] != b[j]
            invariant
                i < a@.len(),
                j <= b@.len(),
                forall|k: int| 0 <= k < j ==> a@[i as int] != #[trigger] b@[k],
            decreases b@.len() - j,
        {
            j = j + 1;
        }
        if j == b.len() {
            proof {
                assert(a@.to_set().contains(a@[i as int]));
                assert(!b@.contains(a@[i as int]));
                assert(!b@.to_set().contains(a@[i as int]));
            }
            return false;
        }
        assert(b@.contains(b@[j as int]));
        i = i + 1;
    }
    assert forall|x: GroupId| a@.to_set().contains(x) implies b@.to_set().contains(x) by {
        let k = choose|k: int| 0 <= k < a@.len() && a@[k] == x;
        assert(b@.contains(a@[k]));
    }
    true
}

impl Datum for Attachment {
    fn same(&self, other: &Self) -> (equal: bool) {
        let equal = self.id == other.id && self.data.same(&other.data) && places_within(&self.entries, &other.entries)
            && places_within(&other.entries, &self.entries);
        proof {
            if equal {
                assert(self.entries@.to_set() =~= other.entries@.to_set());
            }
        }
        equal
    }

    fn duplicate(&self) -> (copy: Self) {
        self.clone()
    }
}

impl Datum for CustomIcon {
    fn same(&self, other: &Self) -> (equal: bool) {
        assert(self.data@ =~= self.data.deep_view() && other.data@ =~= other.data.deep_view());
        let equal = self.id == other.id && self.data.same(&other.data) && self.name.same(&other.name)
            && self.last_modification_time.same(&other.last_modification_time) && places_within(
            &self.entries,
            &other.entries,
        ) && places_within(&other.entries, &self.entries) && groups_within(&self.groups, &other.groups)
            && groups_within(&other.groups, &self.groups);
        proof {
            if equal {
                assert(self.entries@.to_set() =~= other.entries@.to_set());
                assert(self.groups@.to_set() =~= other.groups@.to_set());
            }
        }
        equal
    }

    fn duplicate(&self) -> (copy: Self) {
        self.clone()
    }
}

impl Datum for Group {
    fn same(&self, other: &Self) -> (equal: bool) {
        self.id == other.id && self.parent.same(&other.parent) && self.name.same(&other.name) && self.notes.same(
            &other.notes,
        ) && self.icon.same(&other.icon) && self.times == other.times && self.custom_data.same(&other.custom_data)
            && self.is_expanded == other.is_expanded && self.default_autotype_sequence.same(
            &other.default_autotype_sequence,
        ) && self.enable_autotype.same(&other.enable_autotype) && self.enable_searching.same(
            &other.enable_searching,
        ) && self.last_top_visible_entry.same(&other.last_top_visible_entry) && self.previous_parent_group.same(
            &other.previous_parent_group,
        ) && self.tags.same(&other.tags)
    }

    fn duplicate(&self) -> (copy: Self) {
        self.clone()
    }
}

/// Whether two entries have the same content, their archived versions included.
fn same_entry(a: &Entry, b: &Entry) -> (equal: bool)
    ensures
        equal == (a.deep_view() == b.deep_view()),
    decreases a,
{
    proof {
        a.lemma_history();
        b.lemma_history();
    }
    let same_versions: bool = match (&a.history, &b.history) {
        (Some(x), Some(y)) => {
            if x.entries.len() != y.entries.len() {
                assert(x.deep_view().len() != y.deep_view().len());
                false
            } else {
                let mut i: usize = 0;
                let mut same: bool = true;
                while i < x.entries.len()
                    invariant
                        i <= x.entries@.len() == y.entries@.len(),
                        a.history == Some(*x),
                        same ==> forall|k: int|
                            0 <= k < i ==> (#[trigger] x.entries@[k]).deep_view() == y.entries@[k].deep_view(),
                        !same ==> x.deep_view() != y.deep_view(),
                    decreases x.entries@.len() - i,
                {
                    assert(decreases_to!(*a => a.history->0.entries@[i as int]));
                    if !same_entry(&x.entries[i], &y.entries[i]) {
                        same = false;
                        proof {
                            assert(x.deep_view()[i as int] == x.entries@[i as int].deep_view());
                            assert(y.deep_view()[i as int] == y.entries@[i as int].deep_view());
                        }
                    }
                    i = i + 1;
                }
                proof {
                    if same {
                        assert(x.deep_view() =~= y.deep_view());
                    }
                }
                same
            }
        },
        (None, None) => true,
        _ => false,
    };
    same_versions && a.id == b.id && a.parent == b.parent && a.fields.same(&b.fields) && a.autotype.same(&b.autotype)
        && a.tags.same(&b.tags) && a.times == b.times && a.custom_data.same(&b.custom_data) && a.icon.same(&b.icon)
        && a.foreground_color.same(&b.foreground_color) && a.background_color.same(&b.background_color)
        && a.override_url.same(&b.override_url) && a.quality_check.same(&b.quality_check)
        && a.previous_parent_group.same(&b.previous_parent_group) && a.attachments.same(&b.attachments)
}

impl Datum for Entry {
    fn same(&self, other: &Self) -> (equal: bool) {
        same_entry(self, other)
    }

    fn duplicate(&self) -> (copy: Self) {
        self.clone()
    }
}

} // verus!

//! Whether two versions of an object differ in what counts.
use vstd::prelude::*;

use crate::datum::Datum;
use crate::db::entry::{Entry, EntryModel};
use crate::db::group::{Group, GroupModel};
use crate::db::times::Times;

verus! {

/// What counts when two versions of an entry are compared: everything but the times and the
/// archived versions.
pub open spec fn entry_substance(e: EntryModel) -> EntryModel {
    EntryModel { times: Times::unknown(), history: None, ..e }
}

/// What counts when two versions of a group are compared: everything but the times, the place in
/// the tree, and what a client changes as the user looks at the group.
pub open spec fn group_substance(g: GroupModel) -> GroupModel {
    GroupModel { times: Times::unknown(), parent: None, is_expanded: false, last_top_visible_entry: None, ..g }
}

/// Two versions of an entry differ in what counts.
pub open spec fn entries_diverged(a: EntryModel, b: EntryModel) -> bool {
    entry_substance(a) != entry_substance(b)
}

/// Two versions of a group differ in what counts.
pub open spec fn groups_diverged(a: GroupModel, b: GroupModel) -> bool {
    group_substance(a) != group_substance(b)
}

/// Whether two versions of an entry are dissimilar, their timestamps aside.
pub fn have_entries_diverged(a: &Entry, b: &Entry) -> (diverged: bool)
    ensures
        diverged == entries_diverged(a.deep_view(), b.deep_view()),
{
    let same = a.id == b.id && a.parent == b.parent && a.fields.same(&b.fields) && a.autotype.same(&b.autotype)
        && a.tags.same(&b.tags) && a.custom_data.same(&b.custom_data) && a.icon.same(&b.icon)
        && a.foreground_color.same(&b.foreground_color) && a.background_color.same(&b.background_color)
        && a.override_url.same(&b.override_url) && a.quality_check.same(&b.quality_check)
        && a.previous_parent_group.same(&b.previous_parent_group) && a.attachments.same(&b.attachments);
    !same
}

/// Whether two versions of a group are dissimilar, their timestamps and pure view state aside.
///
/// Clients write `is_expanded` and `last_top_visible_entry` without touching the modification
/// time, so that two otherwise identical files often differ in them.
pub fn have_groups_diverged(a: &Group, b: &Group) -> (diverged: bool)
    ensures
        diverged == groups_diverged(a.deep_view(), b.deep_view()),
{
    let same = a.id == b.id && a.name.same(&b.name) && a.notes.same(&b.notes) && a.icon.same(&b.icon)
        && a.custom_data.same(&b.custom_data) && a.default_autotype_sequence.same(&b.default_autotype_sequence)
        && a.enable_autotype.same(&b.enable_autotype) && a.enable_searching.same(&b.enable_searching)
        && a.previous_parent_group.same(&b.previous_parent_group) && a.tags.same(&b.tags);
    !same
}

} // verus!

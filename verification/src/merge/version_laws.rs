//! Which version of an object counts.
use vstd::prelude::*;

use crate::datetime::{lemma_time_total, NaiveDateTime};
use crate::db::entry::EntryModel;
use crate::db::group::GroupModel;
use crate::db::times::Times;
use crate::ids::EntryId;
use crate::merge::diverge::{entries_diverged, entry_substance, groups_diverged};
use crate::merge::entries::{
    archived, dest_modified, entry_level, is_archived, placed_entry, reconciled_entry, source_modified, versions,
};
use crate::merge::group_changes::{group_conflict, reconciled_group};
use crate::merge::history::{dated, is_descending, keeps, merged_history, same_version};
use crate::merge::history_laws::{
    lemma_filed_in_order, merged_history_is_newest_first, merged_history_keeps_every_version,
};

verus! {

/// Of two versions of an entry the one that was modified later counts, wherever it stands.
pub proof fn later_version_counts(dest: EntryModel, source: EntryModel, target_present: bool, now: NaiveDateTime)
    ensures
        ({
            let merged = reconciled_entry(dest, source, target_present, now);
            let later = if source_modified(source).is_after(dest_modified(dest, now)) {
                source
            } else {
                dest
            };
            entry_substance(EntryModel { parent: merged.parent, id: merged.id, ..later }) == entry_substance(merged)
        }),
{
}

/// What is replaced by another version is not lost: a version that agrees with it in what counts is archived.
pub proof fn replaced_version_is_archived(
    dest: EntryModel,
    source: EntryModel,
    target_present: bool,
    now: NaiveDateTime,
)
    requires
        source_modified(source).is_after(dest_modified(dest, now)),
        dest != source,
    ensures
        exists|v: EntryModel| #[trigger]
            versions(reconciled_entry(dest, source, target_present, now)).contains(v) && !entries_diverged(
                v,
                placed_entry(dest, source, target_present),
            ),
{
    lemma_time_total(source_modified(source), dest_modified(dest, now));
    let placed = placed_entry(dest, source, target_present);
    let history = merged_history(versions(dest), versions(source));
    let all = archived(placed, history);
    assert(versions(reconciled_entry(dest, source, target_present, now)) == all);
    if !is_archived(placed, history) {
        let version = placed.with_history(None);
        lemma_filed_in_order(history, version);
        assert(all.contains(version) && entry_substance(version) == entry_substance(placed));
    } else if history.len() > 0 && !entries_diverged(placed, history[0]) {
        assert(all.contains(history[0]));
    } else {
        let y = choose|y: EntryModel| #[trigger] history.contains(y) && same_version(y, placed);
        assert(all.contains(y));
    }
}

/// Where two versions of an entry are of different moments, no archived version of either is lost.
pub proof fn archived_versions_are_kept(
    dest: EntryModel,
    source: EntryModel,
    target_present: bool,
    now: NaiveDateTime,
    v: EntryModel,
)
    requires
        dest_modified(dest, now) != source_modified(source),
        versions(dest).contains(v) || versions(source).contains(v),
    ensures
        keeps(
            versions(reconciled_entry(dest, source, target_present, now)),
            dated(v),
        ),
{
    let placed = placed_entry(dest, source, target_present);
    let history = merged_history(versions(dest), versions(source));
    let merged = reconciled_entry(dest, source, target_present, now);
    let d = dated(v);
    merged_history_keeps_every_version(versions(dest), versions(source), v);
    if versions(dest).contains(v) {
        assert(history.contains(d) && same_version(d, d));
    }
    if dest == source {
        assert(versions(merged).contains(v) && same_version(v, d));
    } else {
        let y = choose|y: EntryModel| #[trigger] history.contains(y) && same_version(y, d);
        if versions(merged) != history {
            assert(versions(merged) == archived(placed, history));
            lemma_filed_in_order(history, placed.with_history(None));
        }
        assert(versions(merged).contains(y));
    }
}

/// Where one of two versions of an entry is later than the other, the history of the merged entry has
/// its latest version first.
pub proof fn reconciled_history_is_newest_first(
    dest: EntryModel,
    source: EntryModel,
    target_present: bool,
    now: NaiveDateTime,
)
    requires
        !entry_level(dest, source, now),
    ensures
        reconciled_entry(dest, source, target_present, now).history is Some,
        is_descending(versions(reconciled_entry(dest, source, target_present, now))),
{
    let history = merged_history(versions(dest), versions(source));
    merged_history_is_newest_first(versions(dest), versions(source));
    lemma_filed_in_order(history, placed_entry(dest, source, target_present).with_history(None));
}

/// What a client changes as the user looks at a group does not count: two versions of a group that
/// differ only in that are no conflict, and the destination keeps its own.
pub proof fn view_state_is_no_conflict(
    dest: GroupModel,
    is_expanded: bool,
    last_top_visible_entry: Option<EntryId>,
    target_present: bool,
    now: NaiveDateTime,
)
    requires
        dest.times.last_modification is Some,
    ensures
        ({
            let source = GroupModel { is_expanded, last_top_visible_entry, ..dest };
            &&& !groups_diverged(dest, source)
            &&& !group_conflict(dest, source, target_present, now)
            &&& reconciled_group(dest, source, target_present, now) == dest
        }),
{
    let source = GroupModel { is_expanded, last_top_visible_entry, ..dest };
    lemma_time_total(dest.times.last_modification->0, dest.times.last_modification->0);
    assert(crate::merge::diverge::group_substance(dest) == crate::merge::diverge::group_substance(source));
}

/// The times of an entry and its archived versions do not count.
pub proof fn times_and_history_are_no_divergence(
    e: EntryModel,
    times: Times,
    history: Option<Seq<EntryModel>>,
)
    ensures
        !entries_diverged(e, EntryModel { times, history, ..e }),
{
    assert(entry_substance(e) == entry_substance(EntryModel { times, history, ..e }));
}

} // verus!

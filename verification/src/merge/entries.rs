//! Merging the entries of two databases.
use vstd::prelude::*;

use crate::datetime::NaiveDateTime;
use crate::datum::Datum;
use crate::db::database::{lemma_next_unseen, Database, DatabaseModel};
use crate::db::entry::{Entry, EntryModel, History};
use crate::db::times::{either, first_known, Times};
use crate::ids::{AttachmentId, EntryId, Uuid};
use crate::merge::attachments::{
    entry_uses, import_entry, imported, keeps_uses, lemma_free_fewer, lemma_free_same,
    lemma_free_twice, lemma_import_uses, lemma_imported_grown, lemma_keeps_step,
    lemma_pool_grown_twice, new_are_free, new_are_used, pool_grown, Pool,
};
use crate::merge::diverge::{entries_diverged, entry_substance, have_entries_diverged};
use crate::merge::history::{
    contents, dated, file_version, filed, history_notes, is_known, keeps, merge_history,
    merged_history, same_version,
};
use crate::merge::history_laws::{lemma_filed_in_order, merged_history_keeps_every_version};
use crate::merge::log::{
    collected, group_log, lemma_collected_push, LogModel, MergeError, MergeEventTarget,
    MergeEventType, MergeLog, Warning,
};

verus! {

broadcast use group_log;

/// A moment or, where it is unknown, another one.
pub open spec fn known_or(moment: Option<NaiveDateTime>, otherwise: NaiveDateTime) -> NaiveDateTime {
    match moment {
        Some(t) => t,
        None => otherwise,
    }
}

/// The archived versions of an entry.
pub open spec fn versions(e: EntryModel) -> Seq<EntryModel> {
    match e.history {
        Some(h) => h,
        None => Seq::empty(),
    }
}

/// The source has the entry in another group and moved it there later.
pub open spec fn entry_relocates(dest: EntryModel, source: EntryModel) -> bool {
    &&& dest.parent != source.parent
    &&& dest.times.location_changed is Some
    &&& source.times.location_changed is Some
    &&& source.times.location_changed->0.is_after(dest.times.location_changed->0)
}

/// The destination's entry in the group in which the merged database has it.
pub open spec fn placed_entry(dest: EntryModel, source: EntryModel, target_present: bool) -> EntryModel {
    if entry_relocates(dest, source) && target_present {
        EntryModel {
            parent: source.parent,
            times: Times { location_changed: source.times.location_changed, ..dest.times },
            ..dest
        }
    } else {
        dest
    }
}

/// What is reported about the group of an entry.
pub open spec fn placing_notes(dest: EntryModel, source: EntryModel, target_present: bool) -> LogModel {
    if dest.parent == source.parent {
        LogModel::empty()
    } else if dest.times.location_changed is None || source.times.location_changed is None {
        LogModel::warning(Warning::EntryMoveUndecided(dest.id))
    } else if !entry_relocates(dest, source) {
        LogModel::empty()
    } else if target_present {
        LogModel::event(MergeEventTarget::Entry(dest.id), MergeEventType::LocationUpdated)
    } else {
        LogModel::warning(Warning::EntryMoveTargetMissing(dest.id, source.parent))
    }
}

/// When the destination's entry counts as modified.
pub open spec fn dest_modified(dest: EntryModel, now: NaiveDateTime) -> NaiveDateTime {
    known_or(dest.times.last_modification, now)
}

/// When the source's entry counts as modified.
pub open spec fn source_modified(source: EntryModel) -> NaiveDateTime {
    known_or(source.times.last_modification, NaiveDateTime::spec_epoch())
}

/// Both versions count as modified at the same moment, and yet they differ in what counts. The
/// group in which an entry stands is decided by its own timestamp and does not count here.
pub open spec fn entry_conflict(dest: EntryModel, source: EntryModel, now: NaiveDateTime) -> bool {
    &&& dest_modified(dest, now) == source_modified(source)
    &&& entries_diverged(EntryModel { parent: source.parent, ..dest }, source)
}

/// Neither version of an entry is later than the other: both count as modified at the same moment, or
/// they are the same in everything, dated or not.
pub open spec fn entry_level(dest: EntryModel, source: EntryModel, now: NaiveDateTime) -> bool {
    dest_modified(dest, now) == source_modified(source) || dest == source
}

/// A version is among archived ones: the latest of these, or one of the same moment, agrees with it
/// in what counts.
pub open spec fn is_archived(version: EntryModel, history: Seq<EntryModel>) -> bool {
    ||| history.len() > 0 && !entries_diverged(version, history[0])
    ||| keeps(history, version)
}

/// The archived versions of an entry that takes over the source's version. The version that it
/// had is archived at its place in time, unless it is there already.
pub open spec fn archived(placed: EntryModel, history: Seq<EntryModel>) -> Seq<EntryModel> {
    if is_archived(placed, history) {
        history
    } else {
        filed(history, placed.with_history(None))
    }
}

/// What becomes of an entry that both databases have.
pub open spec fn reconciled_entry(
    dest: EntryModel,
    source: EntryModel,
    target_present: bool,
    now: NaiveDateTime,
) -> EntryModel {
    let placed = placed_entry(dest, source, target_present);
    let history = merged_history(versions(dest), versions(source));
    let location_changed = first_known(placed.times.location_changed, source.times.location_changed);
    if entry_level(dest, source, now) {
        placed
    } else if source_modified(source).is_after(dest_modified(dest, now)) {
        EntryModel {
            id: dest.id,
            parent: placed.parent,
            times: Times {
                last_modification: source.times.last_modification,
                location_changed,
                ..dest.times
            },
            history: Some(archived(placed, history)),
            ..source
        }
    } else {
        EntryModel {
            times: Times { location_changed, ..placed.times },
            history: Some(history),
            ..placed
        }
    }
}

/// What is reported about an entry that both databases have.
pub open spec fn reconciling_notes(
    dest: EntryModel,
    source: EntryModel,
    target_present: bool,
    now: NaiveDateTime,
) -> LogModel {
    placing_notes(dest, source, target_present).plus(
        LogModel::warning(Warning::SourceEntryUndated(dest.id)).only_if(source.times.last_modification is None),
    ).plus(
        LogModel::warning(Warning::DestinationEntryUndated(dest.id)).only_if(dest.times.last_modification is None),
    ).plus(
        if entry_level(dest, source, now) {
            LogModel::empty()
        } else {
            LogModel::warning(Warning::SourceEntryWithoutHistory(dest.id)).only_if(source.history is None).plus(
                LogModel::warning(Warning::DestinationEntryWithoutHistory(dest.id)).only_if(dest.history is None),
            ).plus(history_notes(versions(dest), versions(source))).plus(
                LogModel::event(MergeEventTarget::Entry(dest.id), MergeEventType::Updated).only_if(
                    source_modified(source).is_after(dest_modified(dest, now)),
                ),
            )
        },
    )
}

/// Puts the destination's entry into the group of the source's, where the source moved it later.
fn place_entry(dest: &Entry, source: &Entry, target_present: bool, log: &mut MergeLog) -> (placed: Entry)
    ensures
        placed.deep_view() == placed_entry(dest.deep_view(), source.deep_view(), target_present),
        final(log)@ == old(log)@.plus(placing_notes(dest.deep_view(), source.deep_view(), target_present)),
{
    let mut placed: Entry = dest.clone();
    let ghost copy = placed;
    proof {
        dest.lemma_history();
        placed.lemma_history();
    }
    if dest.parent != source.parent {
        match (source.times.location_changed, dest.times.location_changed) {
            (Some(slc), Some(dlc)) => {
                if slc.after(&dlc) {
                    if target_present {
                        placed.parent = source.parent;
                        placed.times.location_changed = Some(slc);
                        proof {
                            placed.lemma_history();
                        }
                        log.record(MergeEventTarget::Entry(dest.id), MergeEventType::LocationUpdated);
                    } else {
                        log.warn(Warning::EntryMoveTargetMissing(dest.id, source.parent));
                    }
                }
            },
            _ => {
                log.warn(Warning::EntryMoveUndecided(dest.id));
            },
        }
    }
    placed
}

/// The archived versions of an entry, and whether it has such a list at all.
fn history_or_empty(entry: &Entry) -> (history: History)
    ensures
        history.deep_view() == versions(entry.deep_view()),
{
    proof {
        entry.lemma_history();
    }
    match &entry.history {
        Some(history) => history.clone(),
        None => {
            let history = History { entries: Vec::new() };
            assert(history.deep_view() =~= Seq::<EntryModel>::empty());
            history
        },
    }
}

/// Merges two versions of an entry. Which of the two counts is decided by their modification
/// times; what the other one held is kept in the history.
pub fn reconcile_entry(
    dest: &Entry,
    source: &Entry,
    target_present: bool,
    now: NaiveDateTime,
    log: &mut MergeLog,
) -> (result: Result<Entry, MergeError>)
    ensures
        match result {
            Ok(merged) => {
                &&& !entry_conflict(dest.deep_view(), source.deep_view(), now)
                &&& merged.deep_view() == reconciled_entry(dest.deep_view(), source.deep_view(), target_present, now)
                &&& final(log)@ == old(log)@.plus(
                    reconciling_notes(dest.deep_view(), source.deep_view(), target_present, now),
                )
            },
            Err(error) => {
                &&& entry_conflict(dest.deep_view(), source.deep_view(), now)
                &&& error == MergeError::EntryModificationTimeNotUpdated(dest.id)
            },
        },
{
    let ghost d = dest.deep_view();
    let ghost s = source.deep_view();
    proof {
        dest.lemma_history();
        source.lemma_history();
    }
    let mut merged: Entry = place_entry(dest, source, target_present, log);
    let ghost placed = merged.deep_view();
    let source_time: NaiveDateTime = match source.times.last_modification {
        Some(t) => t,
        None => {
            log.warn(Warning::SourceEntryUndated(dest.id));
            NaiveDateTime::epoch()
        },
    };
    let dest_time: NaiveDateTime = match dest.times.last_modification {
        Some(t) => t,
        None => {
            log.warn(Warning::DestinationEntryUndated(dest.id));
            now
        },
    };
    if dest_time == source_time {
        let mut compared: Entry = merged.clone();
        let ghost copy = compared;
        compared.parent = source.parent;
        proof {
            merged.lemma_history();
            copy.lemma_history();
            compared.lemma_history();
        }
        if have_entries_diverged(&compared, source) {
            // An entry was updated without updating the modification time.
            return Err(MergeError::EntryModificationTimeNotUpdated(dest.id));
        }
        return Ok(merged);
    }
    if dest.same(source) {
        return Ok(merged);
    }
    if source.history.is_none() {
        log.warn(Warning::SourceEntryWithoutHistory(dest.id));
    }
    if dest.history.is_none() {
        log.warn(Warning::DestinationEntryWithoutHistory(dest.id));
    }
    let source_history: History = history_or_empty(source);
    let dest_history: History = history_or_empty(dest);
    let mut history: History = match merge_history(&dest_history, &source_history, log) {
        Ok(history) => history,
        Err(error) => {
            return Err(error);
        },
    };
    let ghost h = history.deep_view();
    let location_changed = either(merged.times.location_changed, source.times.location_changed);
    if source_time.after(&dest_time) {
        // What the destination had is archived, if it is not yet.
        assert(h =~= contents(history.entries@));
        if history.entries.len() > 0 {
            assert(h[0] == history.entries@[0].deep_view());
        }
        let known: bool = (history.entries.len() > 0 && !have_entries_diverged(&merged, &history.entries[0]))
            || is_known(&history.entries, &merged);
        if !known {
            let mut version: Entry = merged.clone();
            let ghost copy = version;
            version.history = None;
            proof {
                copy.lemma_history();
                version.lemma_history();
            }
            file_version(&mut history.entries, version);
        }
        assert(history.deep_view() =~= contents(history.entries@));
        assert(history.deep_view() == archived(placed, h));
        merged.times.last_modification = source.times.last_modification;
        merged.fields = source.fields.duplicate();
        merged.autotype = source.autotype.duplicate();
        merged.tags = source.tags.duplicate();
        merged.custom_data = source.custom_data.duplicate();
        merged.icon = source.icon;
        merged.foreground_color = source.foreground_color;
        merged.background_color = source.background_color;
        merged.override_url = source.override_url.duplicate();
        merged.quality_check = source.quality_check;
        merged.previous_parent_group = source.previous_parent_group;
        merged.attachments = source.attachments.duplicate();
        log.record(MergeEventTarget::Entry(dest.id), MergeEventType::Updated);
    }
    merged.history = Some(history);
    merged.times.location_changed = location_changed;
    proof {
        merged.lemma_history();
    }
    Ok(merged)
}

/// A deleted object that was changed after its deletion comes back. A change whose moment is
/// known counts as later than a deletion whose moment is not.
pub open spec fn outlives(change: Option<NaiveDateTime>, deletion: Option<NaiveDateTime>) -> bool {
    change is Some && (deletion is None || change->0.is_after(deletion->0))
}

/// An object is spared if it was changed after its deletion, both moments being known.
pub open spec fn spared(change: Option<NaiveDateTime>, deletion: Option<NaiveDateTime>) -> bool {
    change is Some && deletion is Some && change->0.is_after(deletion->0)
}

/// The entry is only in the source, and the destination did not delete it for good.
pub open spec fn entry_wanted(dest: DatabaseModel, source: DatabaseModel, e: EntryId) -> bool {
    &&& source.entries.contains_key(e)
    &&& !dest.entries.contains_key(e)
    &&& dest.deleted_objects.contains_key(e.uuid) ==> outlives(
        source.entries[e].times.spec_last_change(),
        dest.deleted_objects[e.uuid],
    )
}

/// The entry is added to the destination.
pub open spec fn entry_created(dest: DatabaseModel, source: DatabaseModel, e: EntryId) -> bool {
    entry_wanted(dest, source, e) && dest.groups.contains_key(source.entries[e].parent)
}

/// The entry is removed from the destination.
pub open spec fn entry_removed(dest: DatabaseModel, source: DatabaseModel, e: EntryId) -> bool {
    &&& dest.entries.contains_key(e)
    &&& !source.entries.contains_key(e)
    &&& source.deleted_objects.contains_key(e.uuid)
    &&& !spared(dest.entries[e].times.spec_last_change(), source.deleted_objects[e.uuid])
}

/// Both databases have the entry.
pub open spec fn entry_shared(dest: DatabaseModel, source: DatabaseModel, e: EntryId) -> bool {
    dest.entries.contains_key(e) && source.entries.contains_key(e)
}

/// What is reported about an entry of the source that the destination may lack.
pub open spec fn creation_notes(dest: DatabaseModel, source: DatabaseModel, e: EntryId) -> LogModel {
    if entry_created(dest, source, e) {
        LogModel::event(MergeEventTarget::Entry(e), MergeEventType::Created)
    } else {
        LogModel::warning(Warning::EntryParentMissing(e, source.entries[e].parent)).only_if(
            entry_wanted(dest, source, e),
        )
    }
}

/// What is reported about an entry of the destination that the source may have deleted.
pub open spec fn removal_notes(dest: DatabaseModel, source: DatabaseModel, e: EntryId) -> LogModel {
    LogModel::event(MergeEventTarget::Entry(e), MergeEventType::Deleted).only_if(entry_removed(dest, source, e))
}

/// The version of a source entry that was brought into the destination, merged with what the
/// destination has.
pub open spec fn shared_entry(
    dest: DatabaseModel,
    source: DatabaseModel,
    copy: EntryModel,
    now: NaiveDateTime,
    e: EntryId,
) -> EntryModel {
    reconciled_entry(dest.entries[e], copy, dest.groups.contains_key(source.entries[e].parent), now)
}

/// The two versions of an entry cannot be merged.
pub open spec fn shared_conflict(
    dest: DatabaseModel,
    source: DatabaseModel,
    copy: EntryModel,
    now: NaiveDateTime,
    e: EntryId,
) -> bool {
    entry_conflict(dest.entries[e], copy, now)
}

/// What is reported about an entry of the destination that the source may have too.
pub open spec fn shared_notes(
    dest: DatabaseModel,
    source: DatabaseModel,
    copy: EntryModel,
    now: NaiveDateTime,
    e: EntryId,
) -> LogModel {
    reconciling_notes(dest.entries[e], copy, dest.groups.contains_key(source.entries[e].parent), now).only_if(
        entry_shared(dest, source, e),
    )
}

/// The entries of the destination after the merge, given the copies of the source's entries.
pub open spec fn merged_entries(
    dest: DatabaseModel,
    source: DatabaseModel,
    copies: Map<EntryId, EntryModel>,
    now: NaiveDateTime,
) -> Map<EntryId, EntryModel> {
    Map::new(
        |e: EntryId|
            (dest.entries.contains_key(e) && !entry_removed(dest, source, e)) || entry_created(dest, source, e),
        |e: EntryId|
            if entry_shared(dest, source, e) {
                shared_entry(dest, source, copies[e], now, e)
            } else if entry_created(dest, source, e) {
                copies[e]
            } else {
                dest.entries[e]
            },
    )
}

/// The deletions that the destination has on record after its entries were merged.
pub open spec fn deletions_with_entries(dest: DatabaseModel, source: DatabaseModel) -> Map<Uuid, Option<NaiveDateTime>> {
    Map::new(
        |u: Uuid| dest.deleted_objects.contains_key(u) || entry_removed(dest, source, EntryId { uuid: u }),
        |u: Uuid|
            if entry_removed(dest, source, EntryId { uuid: u }) {
                source.deleted_objects[u]
            } else {
                dest.deleted_objects[u]
            },
    )
}

/// A sequence that meets each item of a set once.
pub open spec fn is_walk<A>(walk: Seq<A>, of: Set<A>) -> bool {
    walk.no_duplicates() && walk.to_set() == of
}

/// What a merge of entries leaves open: the identifiers given to attachments, and the order in
/// which the tables are walked.
pub struct EntriesCourse {
    /// The entries of the source as the destination holds them.
    pub copies: Map<EntryId, EntryModel>,
    pub source_walk: Seq<EntryId>,
    pub dest_walk: Seq<EntryId>,
}

/// What a merge of entries reports.
pub open spec fn entries_notes(
    dest: DatabaseModel,
    source: DatabaseModel,
    now: NaiveDateTime,
    course: EntriesCourse,
) -> LogModel {
    collected(course.source_walk, |e: EntryId| creation_notes(dest, source, e)).plus(
        collected(course.dest_walk, |e: EntryId| removal_notes(dest, source, e)),
    ).plus(collected(course.dest_walk, |e: EntryId| shared_notes(dest, source, course.copies[e], now, e)))
}

/// What is new in a table of attachments is used by one of the entries that were brought in.
#[verifier::opaque]
pub open spec fn new_used_by(before: Pool, after: Pool, copies: Map<EntryId, EntryModel>) -> bool {
    forall|a: AttachmentId| #[trigger]
        after.contains_key(a) && !before.contains_key(a) ==> exists|e: EntryId|
            copies.contains_key(e) && #[trigger] entry_uses(copies[e], a)
}

/// One more entry is brought in.
proof fn lemma_new_used_step(
    before: Pool,
    mid: Pool,
    after: Pool,
    copies: Map<EntryId, EntryModel>,
    id: EntryId,
    copy: EntryModel,
)
    requires
        new_used_by(before, mid, copies),
        new_are_used(mid, after, copy),
        !copies.contains_key(id),
    ensures
        new_used_by(before, after, copies.insert(id, copy)),
{
    reveal(new_used_by);
    let more = copies.insert(id, copy);
    assert forall|a: AttachmentId| #[trigger] after.contains_key(a) && !before.contains_key(a) implies exists|e: EntryId|
        more.contains_key(e) && #[trigger] entry_uses(more[e], a) by {
        if mid.contains_key(a) {
            let e = choose|e: EntryId| copies.contains_key(e) && #[trigger] entry_uses(copies[e], a);
            assert(more.contains_key(e) && entry_uses(more[e], a));
        } else {
            assert(more.contains_key(id) && entry_uses(more[id], a));
        }
    }
}

/// Two sets of entries are brought in, one after the other.
proof fn lemma_new_used_joined(
    before: Pool,
    mid: Pool,
    after: Pool,
    first: Map<EntryId, EntryModel>,
    second: Map<EntryId, EntryModel>,
    both: Map<EntryId, EntryModel>,
)
    requires
        new_used_by(before, mid, first),
        new_used_by(mid, after, second),
        forall|e: EntryId| #[trigger] first.contains_key(e) ==> both.contains_key(e) && both[e] == first[e],
        forall|e: EntryId| #[trigger] second.contains_key(e) ==> both.contains_key(e) && both[e] == second[e],
    ensures
        new_used_by(before, after, both),
{
    reveal(new_used_by);
    assert forall|a: AttachmentId| #[trigger] after.contains_key(a) && !before.contains_key(a) implies exists|e: EntryId|
        both.contains_key(e) && #[trigger] entry_uses(both[e], a) by {
        if mid.contains_key(a) {
            let e = choose|e: EntryId| first.contains_key(e) && #[trigger] entry_uses(first[e], a);
            assert(both.contains_key(e) && entry_uses(both[e], a));
        } else {
            let e = choose|e: EntryId| second.contains_key(e) && #[trigger] entry_uses(second[e], a);
            assert(both.contains_key(e) && entry_uses(both[e], a));
        }
    }
}

/// The entries of the destination that the source did not delete for good.
pub open spec fn staying_entries(dest: DatabaseModel, source: DatabaseModel) -> Map<EntryId, EntryModel> {
    Map::new(
        |e: EntryId| dest.entries.contains_key(e) && !entry_removed(dest, source, e),
        |e: EntryId| dest.entries[e],
    )
}

/// What an entry of the destination uses, the merged entry uses too, now or in its history.
pub proof fn lemma_uses_kept(
    dest: EntryModel,
    source: EntryModel,
    target_present: bool,
    now: NaiveDateTime,
    a: AttachmentId,
)
    requires
        entry_uses(dest, a),
    ensures
        entry_uses(reconciled_entry(dest, source, target_present, now), a),
{
    let merged = reconciled_entry(dest, source, target_present, now);
    let placed = placed_entry(dest, source, target_present);
    let history = merged_history(versions(dest), versions(source));
    if entry_level(dest, source, now) {
        if !dest.attachments.contains_value(a) {
            let i = choose|i: int|
                0 <= i < dest.history->0.len() && (#[trigger] dest.history->0[i]).attachments.contains_value(a);
            assert(merged.history->0[i].attachments.contains_value(a));
        }
    } else {
        lemma_filed_in_order(history, placed.with_history(None));
        let v = if dest.attachments.contains_value(a) {
            if merged.attachments == dest.attachments {
                merged
            } else if !is_archived(placed, history) {
                assert(merged.history->0.contains(placed.with_history(None)));
                placed.with_history(None)
            } else if history.len() > 0 && !entries_diverged(placed, history[0]) {
                assert(entry_substance(placed).attachments == entry_substance(history[0]).attachments);
                assert(merged.history->0.contains(history[0]));
                history[0]
            } else {
                let y = choose|y: EntryModel| #[trigger] history.contains(y) && same_version(y, placed);
                assert(entry_substance(placed).attachments == entry_substance(y).attachments);
                y
            }
        } else {
            let i = choose|i: int|
                0 <= i < dest.history->0.len() && (#[trigger] dest.history->0[i]).attachments.contains_value(a);
            assert(versions(dest).contains(versions(dest)[i]));
            merged_history_keeps_every_version(versions(dest), versions(source), versions(dest)[i]);
            dated(versions(dest)[i])
        };
        assert(v.attachments.contains_value(a));
        if v != merged {
            assert(merged.history->0.contains(v));
            let k = choose|k: int| 0 <= k < merged.history->0.len() && merged.history->0[k] == v;
            assert(merged.history->0[k].attachments.contains_value(a));
        }
    }
}

/// The entries of the source were merged into the destination.
pub open spec fn entries_merged(
    dest: DatabaseModel,
    source: DatabaseModel,
    now: NaiveDateTime,
    course: EntriesCourse,
    after: DatabaseModel,
) -> bool {
    &&& is_walk(course.source_walk, source.entries.dom())
    &&& is_walk(course.dest_walk, dest.entries.dom())
    &&& forall|e: EntryId| #[trigger]
        source.entries.contains_key(e) && (entry_shared(dest, source, e) || entry_created(dest, source, e))
            ==> imported(source.entries[e], course.copies[e], source.attachments, after.attachments)
    &&& forall|e: EntryId| #[trigger]
        source.entries.contains_key(e) && entry_shared(dest, source, e) ==> !shared_conflict(
            dest,
            source,
            course.copies[e],
            now,
            e,
        )
    &&& pool_grown(dest.attachments, after.attachments, source.attachments)
    &&& forall|e: EntryId| #[trigger]
        course.copies.contains_key(e) <==> entry_shared(dest, source, e) || entry_created(dest, source, e)
    &&& new_used_by(dest.attachments, after.attachments, course.copies)
    &&& new_are_free(staying_entries(dest, source), dest.attachments, after.attachments)
    &&& after == DatabaseModel {
        entries: merged_entries(dest, source, course.copies, now),
        deleted_objects: deletions_with_entries(dest, source),
        attachments: after.attachments,
        ..dest
    }
}

/// The source has every attachment that an entry uses which is to be added.
pub open spec fn new_entries_resolve(dest: DatabaseModel, source: DatabaseModel) -> bool {
    forall|e: EntryId, a: AttachmentId| #[trigger]
        entry_created(dest, source, e) && #[trigger] entry_uses(source.entries[e], a)
            ==> source.attachments.contains_key(a)
}

/// The versions of an entry that both databases have cannot be merged.
pub open spec fn entry_clash(dest: DatabaseModel, source: DatabaseModel, now: NaiveDateTime, e: EntryId) -> bool {
    entry_shared(dest, source, e) && exists|copy: EntryModel, after: DatabaseModel|
        {
            &&& #[trigger] imported(source.entries[e], copy, source.attachments, after.attachments)
            &&& pool_grown(dest.attachments, after.attachments, source.attachments)
            &&& shared_conflict(dest, source, copy, now, e)
        }
}

/// Why the entries of the source could not be merged into the destination. New entries come first:
/// what is wrong with a shared entry is reported only where they can be added.
pub open spec fn entries_refused(
    dest: DatabaseModel,
    source: DatabaseModel,
    now: NaiveDateTime,
    error: MergeError,
) -> bool {
    match error {
        MergeError::AttachmentNotFound(a) => !source.attachments.contains_key(a) && exists|e: EntryId|
            (entry_created(dest, source, e) || (entry_shared(dest, source, e) && new_entries_resolve(dest, source)))
                && #[trigger] entry_uses(source.entries[e], a),
        MergeError::EntryModificationTimeNotUpdated(e) => new_entries_resolve(dest, source) && entry_clash(
            dest,
            source,
            now,
            e,
        ),
        _ => false,
    }
}

/// Two versions of an entry that conflict clash.
proof fn lemma_clash(
    dest: DatabaseModel,
    source: DatabaseModel,
    now: NaiveDateTime,
    e: EntryId,
    copy: EntryModel,
    after: DatabaseModel,
)
    requires
        entry_shared(dest, source, e),
        imported(source.entries[e], copy, source.attachments, after.attachments),
        pool_grown(dest.attachments, after.attachments, source.attachments),
        shared_conflict(dest, source, copy, now, e),
    ensures
        entry_clash(dest, source, now, e),
{
}

/// An attachment that the source does not have is named.
proof fn lemma_attachment_missing(source: DatabaseModel, e: EntryId, error: MergeError)
    requires
        exists|a: AttachmentId|
            entry_uses(source.entries[e], a) && !#[trigger] source.attachments.contains_key(a) && error
                == MergeError::AttachmentNotFound(a),
    ensures
        error is AttachmentNotFound,
        entry_uses(source.entries[e], error->AttachmentNotFound_0),
        !source.attachments.contains_key(error->AttachmentNotFound_0),
{
}

/// One more entry is brought in under free identifiers.
proof fn lemma_free_step(before: DatabaseModel, mid: DatabaseModel, after: Pool)
    requires
        new_are_free(before.entries, before.attachments, mid.attachments),
        new_are_free(mid.entries, mid.attachments, after),
        keeps_uses(before.entries, mid.entries),
    ensures
        new_are_free(before.entries, before.attachments, after),
{
    lemma_free_fewer(before.entries, mid.entries, mid.attachments, after);
    lemma_free_twice(before.entries, before.attachments, mid.attachments, after);
}

/// Adds the entries that only the source has.
fn add_new_entries(dest: &mut Database, source: &Database, log: &mut MergeLog) -> (result: Result<
    Ghost<(Seq<EntryId>, Map<EntryId, EntryModel>)>,
    MergeError,
>)
    requires
        old(dest)@.wf(),
        source@.wf(),
    ensures
        final(dest)@.wf(),
        final(dest)@.root == old(dest)@.root,
        match result {
            Ok(course) => {
                let (walk, copies) = course@;
                &&& is_walk(walk, source@.entries.dom())
                &&& final(log)@ == old(log)@.plus(
                    collected(walk, |e: EntryId| creation_notes(old(dest)@, source@, e)),
                )
                &&& pool_grown(old(dest)@.attachments, final(dest)@.attachments, source@.attachments)
                &&& final(dest)@ == DatabaseModel {
                    entries: final(dest)@.entries,
                    attachments: final(dest)@.attachments,
                    ..old(dest)@
                }
                &&& forall|e: EntryId| #[trigger]
                    final(dest)@.entries.contains_key(e) <==> old(dest)@.entries.contains_key(e) || entry_created(
                        old(dest)@,
                        source@,
                        e,
                    )
                &&& forall|e: EntryId| #[trigger]
                    old(dest)@.entries.contains_key(e) ==> final(dest)@.entries[e] == old(dest)@.entries[e]
                &&& forall|e: EntryId| #[trigger]
                    entry_created(old(dest)@, source@, e) ==> final(dest)@.entries[e] == copies[e] && imported(
                        source@.entries[e],
                        copies[e],
                        source@.attachments,
                        final(dest)@.attachments,
                    )
                &&& forall|e: EntryId| #[trigger]
                    copies.contains_key(e) <==> entry_created(old(dest)@, source@, e)
                &&& new_used_by(old(dest)@.attachments, final(dest)@.attachments, copies)
                &&& new_are_free(old(dest)@.entries, old(dest)@.attachments, final(dest)@.attachments)
            },
            Err(error) => entries_refused(old(dest)@, source@, NaiveDateTime::spec_epoch(), error)
                && error is AttachmentNotFound,
        },
{
    let ids: Vec<EntryId> = source.entry_ids();
    let ghost before = dest@;
    let ghost s = source@;
    let ghost notes = |e: EntryId| creation_notes(before, s, e);
    let ghost mut copies: Map<EntryId, EntryModel> = Map::empty();
    let mut i: usize = 0;
    assert(new_used_by(before.attachments, before.attachments, copies)) by {
        reveal(new_used_by);
    }
    proof {
        lemma_free_same(before.entries, before.attachments);
        assert(keeps_uses(before.entries, before.entries)) by {
            reveal(keeps_uses);
        }
    }
    assert(ids@.take(0) =~= Seq::<EntryId>::empty());
    while i < ids.len()
        invariant
            i <= ids@.len(),
            ids@.no_duplicates(),
            before == old(dest)@,
            s == source@,
            s.wf(),
            notes == (|e: EntryId| creation_notes(before, s, e)),
            forall|e: EntryId| #[trigger] ids@.contains(e) <==> s.entries.contains_key(e),
            dest@.wf(),
            dest@ == (DatabaseModel { entries: dest@.entries, attachments: dest@.attachments, ..before }),
            pool_grown(before.attachments, dest@.attachments, s.attachments),
            log@ == old(log)@.plus(collected(ids@.take(i as int), notes)),
            forall|e: EntryId| #[trigger]
                dest@.entries.contains_key(e) <==> before.entries.contains_key(e) || (ids@.take(i as int).contains(e)
                    && entry_created(before, s, e)),
            forall|e: EntryId| #[trigger] before.entries.contains_key(e) ==> dest@.entries[e] == before.entries[e],
            forall|e: EntryId|
                ids@.take(i as int).contains(e) && #[trigger] entry_created(before, s, e) ==> dest@.entries[e]
                    == copies[e] && imported(s.entries[e], copies[e], s.attachments, dest@.attachments),
            forall|e: EntryId| #[trigger]
                copies.contains_key(e) <==> ids@.take(i as int).contains(e) && entry_created(before, s, e),
            new_used_by(before.attachments, dest@.attachments, copies),
            new_are_free(before.entries, before.attachments, dest@.attachments),
            keeps_uses(before.entries, dest@.entries),
        decreases ids@.len() - i,
    {
        let id = ids[i];
        let ghost mid = dest@;
        proof {
            lemma_collected_push(ids@, i as int, notes);
            lemma_next_unseen(ids@, i as int);
            lemma_pool_grown_twice(before.attachments, mid.attachments, mid.attachments, s.attachments);
        }
        match source.entry(id) {
            Some(entry) => {
                let known = dest.entry(id).is_some();
                let wanted = !known && match dest.deletion(id.uuid) {
                    Some(deletion) => match (deletion, entry.times.last_change()) {
                        (Some(deletion), Some(change)) => change.after(&deletion),
                        (None, Some(_)) => true,
                        (_, None) => false,
                    },
                    None => true,
                };
                assert(wanted == entry_wanted(before, s, id));
                if wanted {
                    let parent_present = dest.group(entry.parent).is_some();
                    if !parent_present {
                        log.warn(Warning::EntryParentMissing(id, entry.parent));
                    } else {
                        match import_entry(dest, source, entry) {
                            Ok(copy) => {
                                let ghost old_copies = copies;
                                proof {
                                    copies = copies.insert(id, copy.deep_view());
                                    lemma_pool_grown_twice(
                                        before.attachments,
                                        mid.attachments,
                                        dest@.attachments,
                                        s.attachments,
                                    );
                                    assert(s.entries[id].id == id);
                                    lemma_free_step(before, mid, dest@.attachments);
                                    lemma_keeps_step(before.entries, mid.entries, id, copy.deep_view());
                                }
                                let ghost model = copy.deep_view();
                                dest.put_entry(copy);
                                assert(dest@.tree() == before.tree());
                                assert(dest@.entries =~= mid.entries.insert(id, model));
                                log.record(MergeEventTarget::Entry(id), MergeEventType::Created);
                                proof {
                                    assert forall|e: EntryId|
                                        ids@.take(i + 1).contains(e) && #[trigger] entry_created(
                                            before,
                                            s,
                                            e,
                                        ) implies dest@.entries[e] == copies[e] && imported(
                                        s.entries[e],
                                        copies[e],
                                        s.attachments,
                                        dest@.attachments,
                                    ) by {
                                        if e != id {
                                            lemma_imported_grown(
                                                s.entries[e],
                                                copies[e],
                                                s.attachments,
                                                mid.attachments,
                                                dest@.attachments,
                                            );
                                        }
                                    }
                                    assert(entry_created(before, s, id));
                                    lemma_new_used_step(
                                        before.attachments,
                                        mid.attachments,
                                        dest@.attachments,
                                        old_copies,
                                        id,
                                        copies[id],
                                    );
                                }
                            },
                            Err(error) => {
                                proof {
                                    lemma_attachment_missing(s, id, error);
                                }
                                return Err(error);
                            },
                        }
                    }
                }
            },
            None => {},
        }
        i = i + 1;
    }
    proof {
        assert(ids@.take(ids@.len() as int) =~= ids@);
        assert(ids@.to_set() =~= s.entries.dom());
    }
    Ok(Ghost((ids@, copies)))
}

/// Removes the entries that the source has deleted.
fn remove_deleted_entries(dest: &mut Database, source: &Database, ids: &Vec<EntryId>, log: &mut MergeLog)
    requires
        old(dest)@.wf(),
        ids@.no_duplicates(),
        forall|e: EntryId| #[trigger] ids@.contains(e) ==> old(dest)@.entries.contains_key(e),
        forall|e: EntryId| #[trigger]
            old(dest)@.entries.contains_key(e) ==> ids@.contains(e) || source@.entries.contains_key(e),
    ensures
        final(dest)@.wf(),
        final(log)@ == old(log)@.plus(collected(ids@, |e: EntryId| removal_notes(old(dest)@, source@, e))),
        final(dest)@ == (DatabaseModel {
            entries: final(dest)@.entries,
            deleted_objects: deletions_with_entries(old(dest)@, source@),
            ..old(dest)@
        }),
        forall|e: EntryId| #[trigger]
            final(dest)@.entries.contains_key(e) <==> old(dest)@.entries.contains_key(e) && !entry_removed(
                old(dest)@,
                source@,
                e,
            ),
        forall|e: EntryId| #[trigger]
            final(dest)@.entries.contains_key(e) ==> final(dest)@.entries[e] == old(dest)@.entries[e],
{
    let ghost before = dest@;
    let ghost s = source@;
    let ghost notes = |e: EntryId| removal_notes(before, s, e);
    let mut i: usize = 0;
    assert(ids@.take(0) =~= Seq::<EntryId>::empty());
    while i < ids.len()
        invariant
            i <= ids@.len(),
            ids@.no_duplicates(),
            before == old(dest)@,
            s == source@,
            notes == (|e: EntryId| removal_notes(before, s, e)),
            forall|e: EntryId| #[trigger] ids@.contains(e) ==> before.entries.contains_key(e),
            dest@.wf(),
            dest@ == (DatabaseModel {
                entries: dest@.entries,
                deleted_objects: dest@.deleted_objects,
                ..before
            }),
            log@ == old(log)@.plus(collected(ids@.take(i as int), notes)),
            forall|e: EntryId| #[trigger]
                dest@.entries.contains_key(e) <==> before.entries.contains_key(e) && !(ids@.take(i as int).contains(e)
                    && entry_removed(before, s, e)),
            forall|e: EntryId| #[trigger] dest@.entries.contains_key(e) ==> dest@.entries[e] == before.entries[e],
            forall|u: Uuid| #[trigger]
                dest@.deleted_objects.contains_key(u) <==> before.deleted_objects.contains_key(u) || (ids@.take(
                    i as int,
                ).contains(EntryId { uuid: u }) && entry_removed(before, s, EntryId { uuid: u })),
            forall|u: Uuid| #[trigger]
                dest@.deleted_objects.contains_key(u) ==> dest@.deleted_objects[u] == if ids@.take(
                    i as int,
                ).contains(EntryId { uuid: u }) && entry_removed(before, s, EntryId { uuid: u }) {
                    s.deleted_objects[u]
                } else {
                    before.deleted_objects[u]
                },
        decreases ids@.len() - i,
    {
        let id = ids[i];
        proof {
            lemma_collected_push(ids@, i as int, notes);
            lemma_next_unseen(ids@, i as int);
        }
        let removed = match dest.entry(id) {
            Some(entry) => if source.entry(id).is_some() {
                None
            } else {
                match source.deletion(id.uuid) {
                    Some(deletion) => {
                        let is_spared = match (deletion, entry.times.last_change()) {
                            (Some(deletion), Some(change)) => change.after(&deletion),
                            _ => false,
                        };
                        if is_spared {
                            None
                        } else {
                            Some(deletion)
                        }
                    },
                    None => None,
                }
            },
            None => None,
        };
        assert(removed is Some <==> entry_removed(before, s, id));
        match removed {
            Some(deletion) => {
                dest.remove_entry(id);
                dest.record_deletion(id.uuid, deletion);
                assert(dest@.tree() == before.tree());
                log.record(MergeEventTarget::Entry(id), MergeEventType::Deleted);
            },
            None => {},
        }
        assert forall|u: Uuid| u != id.uuid implies EntryId { uuid: u } != id by {}
        i = i + 1;
    }
    proof {
        assert(ids@.take(ids@.len() as int) =~= ids@);
        assert forall|e: EntryId| entry_removed(before, s, e) implies ids@.contains(e) by {
            assert(before.entries.contains_key(e));
        }
        assert(dest@.deleted_objects =~= deletions_with_entries(before, s));
    }
}

/// Merges the entries that both databases have.
fn reconcile_entries(
    dest: &mut Database,
    source: &Database,
    ids: &Vec<EntryId>,
    now: NaiveDateTime,
    log: &mut MergeLog,
) -> (result: Result<Ghost<Map<EntryId, EntryModel>>, MergeError>)
    requires
        old(dest)@.wf(),
        source@.wf(),
        ids@.no_duplicates(),
    ensures
        final(dest)@.wf(),
        final(dest)@.root == old(dest)@.root,
        match result {
            Ok(copies) => {
                &&& final(log)@ == old(log)@.plus(
                    collected(ids@, |e: EntryId| shared_notes(old(dest)@, source@, copies@[e], now, e)),
                )
                &&& pool_grown(old(dest)@.attachments, final(dest)@.attachments, source@.attachments)
                &&& final(dest)@ == DatabaseModel {
                    entries: final(dest)@.entries,
                    attachments: final(dest)@.attachments,
                    ..old(dest)@
                }
                &&& forall|e: EntryId| #[trigger]
                    final(dest)@.entries.contains_key(e) <==> old(dest)@.entries.contains_key(e)
                &&& forall|e: EntryId| #[trigger]
                    final(dest)@.entries.contains_key(e) ==> final(dest)@.entries[e] == if ids@.contains(e)
                        && entry_shared(old(dest)@, source@, e) {
                        shared_entry(old(dest)@, source@, copies@[e], now, e)
                    } else {
                        old(dest)@.entries[e]
                    }
                &&& forall|e: EntryId|
                    ids@.contains(e) && #[trigger] entry_shared(old(dest)@, source@, e) ==> imported(
                        source@.entries[e],
                        copies@[e],
                        source@.attachments,
                        final(dest)@.attachments,
                    ) && !shared_conflict(old(dest)@, source@, copies@[e], now, e)
                &&& forall|e: EntryId| #[trigger]
                    copies@.contains_key(e) <==> ids@.contains(e) && entry_shared(old(dest)@, source@, e)
                &&& new_used_by(old(dest)@.attachments, final(dest)@.attachments, copies@)
                &&& new_are_free(old(dest)@.entries, old(dest)@.attachments, final(dest)@.attachments)
            },
            Err(error) => match error {
                MergeError::AttachmentNotFound(a) => !source@.attachments.contains_key(a) && exists|e: EntryId|
                    ids@.contains(e) && entry_shared(old(dest)@, source@, e) && #[trigger] entry_uses(
                        source@.entries[e],
                        a,
                    ),
                MergeError::EntryModificationTimeNotUpdated(e) => ids@.contains(e) && entry_clash(
                    old(dest)@,
                    source@,
                    now,
                    e,
                ),
                _ => false,
            },
        },
{
    let ghost before = dest@;
    let ghost s = source@;
    let ghost mut copies: Map<EntryId, EntryModel> = Map::empty();
    let mut i: usize = 0;
    assert(new_used_by(before.attachments, before.attachments, copies)) by {
        reveal(new_used_by);
    }
    proof {
        lemma_free_same(before.entries, before.attachments);
        assert(keeps_uses(before.entries, before.entries)) by {
            reveal(keeps_uses);
        }
    }
    assert(ids@.take(0) =~= Seq::<EntryId>::empty());
    while i < ids.len()
        invariant
            i <= ids@.len(),
            ids@.no_duplicates(),
            before == old(dest)@,
            before.wf(),
            s == source@,
            s.wf(),
            dest@.wf(),
            dest@ == (DatabaseModel { entries: dest@.entries, attachments: dest@.attachments, ..before }),
            pool_grown(before.attachments, dest@.attachments, s.attachments),
            log@ == old(log)@.plus(
                collected(ids@.take(i as int), |e: EntryId| shared_notes(before, s, copies[e], now, e)),
            ),
            forall|e: EntryId| #[trigger] dest@.entries.contains_key(e) <==> before.entries.contains_key(e),
            forall|e: EntryId| #[trigger]
                dest@.entries.contains_key(e) ==> dest@.entries[e] == if ids@.take(i as int).contains(e)
                    && entry_shared(before, s, e) {
                    shared_entry(before, s, copies[e], now, e)
                } else {
                    before.entries[e]
                },
            forall|e: EntryId|
                ids@.take(i as int).contains(e) && #[trigger] entry_shared(before, s, e) ==> imported(
                    s.entries[e],
                    copies[e],
                    s.attachments,
                    dest@.attachments,
                ) && !shared_conflict(before, s, copies[e], now, e),
            forall|e: EntryId| #[trigger]
                copies.contains_key(e) <==> ids@.take(i as int).contains(e) && entry_shared(before, s, e),
            new_used_by(before.attachments, dest@.attachments, copies),
            new_are_free(before.entries, before.attachments, dest@.attachments),
            keeps_uses(before.entries, dest@.entries),
        decreases ids@.len() - i,
    {
        let id = ids[i];
        let ghost seen = ids@.take(i as int);
        let ghost mid = dest@;
        let ghost old_copies = copies;
        proof {
            lemma_next_unseen(ids@, i as int);
        }
        match source.entry(id) {
            Some(source_entry) => {
                if dest.entry(id).is_some() {
                    let copy = match import_entry(dest, source, source_entry) {
                        Ok(copy) => copy,
                        Err(error) => {
                            proof {
                                lemma_attachment_missing(s, id, error);
                            }
                            return Err(error);
                        },
                    };
                    proof {
                        lemma_pool_grown_twice(
                            before.attachments,
                            mid.attachments,
                            dest@.attachments,
                            s.attachments,
                        );
                        copies = copies.insert(id, copy.deep_view());
                    }
                    let target_present = dest.group(copy.parent).is_some();
                    assert(copy.deep_view().with_history(None).parent == s.entries[id].parent);
                    let merged: Entry = match dest.entry(id) {
                        Some(dest_entry) => match reconcile_entry(dest_entry, &copy, target_present, now, log) {
                            Ok(merged) => merged,
                            Err(error) => {
                                proof {
                                    assert(before.entries[id].id == id);
                                    lemma_clash(before, s, now, id, copy.deep_view(), dest@);
                                }
                                return Err(error);
                            },
                        },
                        None => copy,
                    };
                    proof {
                        assert(before.entries[id].id == id);
                        assert(before.groups.contains_key(before.entries[id].parent));
                        assert(merged.deep_view() == shared_entry(before, s, copies[id], now, id));
                        lemma_free_step(before, mid, dest@.attachments);
                        assert(mid.entries[id] == before.entries[id]);
                        assert forall|a: AttachmentId| #[trigger] entry_uses(mid.entries[id], a) implies entry_uses(
                            merged.deep_view(),
                            a,
                        ) by {
                            lemma_uses_kept(mid.entries[id], copies[id], target_present, now, a);
                        }
                        lemma_keeps_step(before.entries, mid.entries, id, merged.deep_view());
                    }
                    let ghost model = merged.deep_view();
                    dest.put_entry(merged);
                    proof {
                        assert(dest@.tree() == before.tree());
                        assert(dest@.entries =~= mid.entries.insert(id, model));
                        assert forall|e: EntryId|
                            ids@.take(i + 1).contains(e) && #[trigger] entry_shared(before, s, e) implies imported(
                            s.entries[e],
                            copies[e],
                            s.attachments,
                            dest@.attachments,
                        ) && !shared_conflict(before, s, copies[e], now, e) by {
                            if e != id {
                                lemma_imported_grown(
                                    s.entries[e],
                                    copies[e],
                                    s.attachments,
                                    mid.attachments,
                                    dest@.attachments,
                                );
                            }
                        }
                        assert(entry_shared(before, s, id));
                        lemma_new_used_step(
                            before.attachments,
                            mid.attachments,
                            dest@.attachments,
                            old_copies,
                            id,
                            copies[id],
                        );
                    }
                }
            },
            None => {},
        }
        proof {
            let notes = |e: EntryId| shared_notes(before, s, copies[e], now, e);
            let old_notes = |e: EntryId| shared_notes(before, s, old_copies[e], now, e);
            assert forall|j: int| 0 <= j < seen.len() implies notes(#[trigger] seen[j]) == old_notes(seen[j]) by {
                assert(seen.contains(seen[j]));
            }
            lemma_collected_same(seen, notes, old_notes);
            lemma_collected_push(ids@, i as int, notes);
        }
        i = i + 1;
    }
    assert(ids@.take(ids@.len() as int) =~= ids@);
    Ok(Ghost(copies))
}

/// Two reports that agree on the items of a walk are the same for the walk.
pub proof fn lemma_collected_same<A>(walk: Seq<A>, a: spec_fn(A) -> LogModel, b: spec_fn(A) -> LogModel)
    requires
        forall|i: int| 0 <= i < walk.len() ==> a(#[trigger] walk[i]) == b(walk[i]),
    ensures
        collected(walk, a) == collected(walk, b),
    decreases walk.len(),
{
    if walk.len() > 0 {
        assert forall|i: int| 0 <= i < walk.drop_last().len() implies a(#[trigger] walk.drop_last()[i]) == b(
            walk.drop_last()[i],
        ) by {
            assert(walk.drop_last()[i] == walk[i]);
        }
        lemma_collected_same(walk.drop_last(), a, b);
        assert(walk[walk.len() - 1] == walk.last());
    }
}

/// Merges the entries of the source into the destination.
///
/// An entry that only the source has is added, unless the destination deleted it. An entry that
/// only the destination has is removed if the source deleted it. Of an entry that both have, the
/// version that was modified last counts.
pub fn merge_entries(dest: &mut Database, source: &Database, now: NaiveDateTime, log: &mut MergeLog) -> (result: Result<
    (),
    MergeError,
>)
    requires
        old(dest)@.wf(),
        source@.wf(),
    ensures
        final(dest)@.wf(),
        final(dest)@.root == old(dest)@.root,
        match result {
            Ok(_) => exists|course: EntriesCourse|
                {
                    &&& #[trigger] entries_merged(old(dest)@, source@, now, course, final(dest)@)
                    &&& final(log)@ == old(log)@.plus(entries_notes(old(dest)@, source@, now, course))
                },
            Err(error) => entries_refused(old(dest)@, source@, now, error),
        },
{
    let ids: Vec<EntryId> = dest.entry_ids();
    let ghost d0 = dest@;
    let ghost s = source@;
    let course: Ghost<(Seq<EntryId>, Map<EntryId, EntryModel>)> = match add_new_entries(dest, source, log) {
        Ok(course) => course,
        Err(error) => {
            return Err(error);
        },
    };
    let ghost (source_walk, created) = course@;
    let ghost d1 = dest@;
    proof {
        assert forall|e: EntryId| #[trigger] d1.entries.contains_key(e) implies ids@.contains(e)
            || s.entries.contains_key(e) by {
            assert(entry_created(d0, s, e) ==> s.entries.contains_key(e));
        }
        assert forall|e: EntryId| entry_removed(d1, s, e) == entry_removed(d0, s, e) by {
            if d1.entries.contains_key(e) && !s.entries.contains_key(e) {
                assert(!entry_created(d0, s, e));
            }
        }
    }
    remove_deleted_entries(dest, source, &ids, log);
    let ghost d2 = dest@;
    proof {
        assert(deletions_with_entries(d1, s) =~= deletions_with_entries(d0, s));
        let a = |e: EntryId| removal_notes(d1, s, e);
        let b = |e: EntryId| removal_notes(d0, s, e);
        lemma_collected_same(ids@, a, b);
        assert forall|e: EntryId| entry_shared(d0, s, e) <==> ids@.contains(e) && entry_shared(d2, s, e) by {
            assert(entry_shared(d0, s, e) ==> !entry_removed(d1, s, e));
        }
    }
    let copies: Ghost<Map<EntryId, EntryModel>> = match reconcile_entries(dest, source, &ids, now, log) {
        Ok(copies) => copies,
        Err(error) => {
            proof {
                assert forall|e: EntryId, a: AttachmentId| #[trigger]
                    entry_created(d0, s, e) && #[trigger] entry_uses(s.entries[e], a) implies s.attachments.contains_key(
                    a,
                ) by {
                    lemma_import_uses(s.entries[e], created[e], s.attachments, d1.attachments);
                }
                match error {
                    MergeError::AttachmentNotFound(a) => {
                        let e = choose|e: EntryId|
                            ids@.contains(e) && entry_shared(d2, s, e) && #[trigger] entry_uses(s.entries[e], a);
                        assert(entry_shared(d0, s, e) && entry_uses(s.entries[e], a));
                    },
                    MergeError::EntryModificationTimeNotUpdated(e) => {
                        let (copy, after) = choose|copy: EntryModel, after: DatabaseModel|
                            {
                                &&& #[trigger] imported(s.entries[e], copy, s.attachments, after.attachments)
                                &&& pool_grown(d2.attachments, after.attachments, s.attachments)
                                &&& shared_conflict(d2, s, copy, now, e)
                            };
                        lemma_pool_grown_twice(d0.attachments, d2.attachments, after.attachments, s.attachments);
                        assert(entry_shared(d0, s, e));
                        assert(d2.entries[e] == d0.entries[e]);
                        assert(imported(s.entries[e], copy, s.attachments, after.attachments));
                        assert(shared_conflict(d0, s, copy, now, e));
                        lemma_clash(d0, s, now, e, copy, after);
                    },
                    _ => {},
                }
            }
            return Err(error);
        },
    };
    let ghost reconciled = copies@;
    proof {
        let d3 = dest@;
        let copies = Map::new(
            |e: EntryId| entry_shared(d0, s, e) || entry_created(d0, s, e),
            |e: EntryId|
                if entry_shared(d0, s, e) {
                    reconciled[e]
                } else {
                    created[e]
                },
        );
        let course = EntriesCourse { copies, source_walk, dest_walk: ids@ };
        assert(ids@.to_set() =~= d0.entries.dom());
        lemma_pool_grown_twice(d0.attachments, d2.attachments, d3.attachments, s.attachments);
        assert forall|e: EntryId| #[trigger]
            s.entries.contains_key(e) && (entry_shared(d0, s, e) || entry_created(d0, s, e)) implies imported(
            s.entries[e],
            copies[e],
            s.attachments,
            d3.attachments,
        ) by {
            if entry_shared(d0, s, e) {
                assert(entry_shared(d2, s, e));
            } else {
                lemma_imported_grown(s.entries[e], created[e], s.attachments, d1.attachments, d3.attachments);
            }
        }
        assert forall|e: EntryId| entry_shared(d0, s, e) implies d2.entries[e] == d0.entries[e] by {
            assert(d2.entries.contains_key(e));
            assert(d0.entries.contains_key(e));
        }
        assert forall|e: EntryId| #[trigger] s.entries.contains_key(e) && entry_shared(d0, s, e) implies !shared_conflict(
            d0,
            s,
            copies[e],
            now,
            e,
        ) by {
            assert(entry_shared(d2, s, e));
        }
        let target = merged_entries(d0, s, copies, now);
        assert forall|e: EntryId| d3.entries.contains_key(e) <==> target.contains_key(e) by {
            assert(d3.entries.contains_key(e) <==> d2.entries.contains_key(e));
            assert(d2.entries.contains_key(e) <==> d1.entries.contains_key(e) && !entry_removed(d1, s, e));
            assert(d1.entries.contains_key(e) <==> d0.entries.contains_key(e) || entry_created(d0, s, e));
        }
        assert forall|e: EntryId| d3.entries.contains_key(e) implies d3.entries[e] == target[e] by {
            assert(d2.entries.contains_key(e));
            assert(d1.entries.contains_key(e));
            if entry_shared(d0, s, e) {
                assert(entry_shared(d2, s, e));
            } else if entry_created(d0, s, e) {
                assert(d1.entries[e] == created[e]);
                assert(!ids@.contains(e));
            } else {
                assert(d0.entries.contains_key(e));
            }
        }
        assert(d3.entries =~= target);
        let a = |e: EntryId| shared_notes(d2, s, reconciled[e], now, e);
        let b = |e: EntryId| shared_notes(d0, s, course.copies[e], now, e);
        assert forall|i: int| 0 <= i < ids@.len() implies a(#[trigger] ids@[i]) == b(ids@[i]) by {
            let e = ids@[i];
            assert(ids@.contains(e));
            if s.entries.contains_key(e) {
                assert(entry_shared(d0, s, e));
                assert(entry_shared(d2, s, e));
            }
        }
        lemma_collected_same(ids@, a, b);
        lemma_new_used_joined(d0.attachments, d1.attachments, d3.attachments, created, reconciled, copies);
        let staying = staying_entries(d0, s);
        assert(keeps_uses(staying, d0.entries)) by {
            reveal(keeps_uses);
        }
        assert(keeps_uses(staying, d2.entries)) by {
            reveal(keeps_uses);
            assert forall|e: EntryId| #[trigger] staying.contains_key(e) implies d2.entries.contains_key(e)
                && d2.entries[e] == staying[e] by {
                assert(d0.entries.contains_key(e) && !entry_removed(d1, s, e));
                assert(d1.entries.contains_key(e));
            }
        }
        lemma_free_fewer(staying, d0.entries, d0.attachments, d1.attachments);
        lemma_free_fewer(staying, d2.entries, d2.attachments, d3.attachments);
        lemma_free_twice(staying, d0.attachments, d1.attachments, d3.attachments);
        assert(entries_merged(d0, s, now, course, d3));
    }
    Ok(())
}

} // verus!

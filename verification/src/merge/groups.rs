//! Merging the groups of two databases, and the entries in them.
use vstd::prelude::*;

use crate::datetime::NaiveDateTime;
use crate::db::database::{without_groups, Database, DatabaseModel};
use crate::ids::{EntryId, GroupId};
use crate::merge::arrivals::{
    add_new_groups, creation_walk, group_created, group_creation_notes, with_new_groups,
};
use crate::merge::departures::{
    deletions_with_groups, gone_groups, group_removal_notes, remove_deleted_groups,
};
use crate::merge::entries::{
    entries_merged, entries_notes, entries_refused, entry_shared, is_walk, merge_entries,
    EntriesCourse,
};
use crate::merge::group_changes::{
    group_shared, groups_agree, groups_refused, merged_groups, reconcile_groups, shared_group_notes,
};
use crate::merge::log::{collected, group_log, LogModel, MergeError, MergeLog};

verus! {

broadcast use group_log;

/// The destination when its groups are merged too.
pub open spec fn settled_groups(middle: DatabaseModel, source: DatabaseModel, now: NaiveDateTime) -> DatabaseModel {
    DatabaseModel { groups: merged_groups(middle.groups, source, now), ..middle }
}

/// The destination without the groups that a merge removes, and with their deletion on record.
pub open spec fn reduced(settled: DatabaseModel, source: DatabaseModel) -> DatabaseModel {
    without_groups(
        DatabaseModel { deleted_objects: deletions_with_groups(settled, source), ..settled },
        gone_groups(settled, source),
    )
}

/// The moment that was given or, where none was, one that a clock can show.
pub open spec fn is_moment(given: Option<NaiveDateTime>, now: NaiveDateTime) -> bool {
    match given {
        Some(t) => now == t,
        None => !NaiveDateTime::spec_epoch().is_after(now),
    }
}

/// What a merge of groups leaves open: how the entries are merged, and the order in which the
/// tables are walked.
pub struct GroupsCourse {
    pub created: Seq<GroupId>,
    pub deleted: Seq<GroupId>,
    pub entries: EntriesCourse,
    /// The destination once its entries are merged.
    pub middle: DatabaseModel,
    pub reconciled: Seq<GroupId>,
}

/// The groups and entries of the source were merged into the destination.
pub open spec fn groups_merged(
    dest: DatabaseModel,
    source: DatabaseModel,
    now: NaiveDateTime,
    course: GroupsCourse,
    after: DatabaseModel,
) -> bool {
    let grown = with_new_groups(dest, source);
    &&& creation_walk(course.created, dest, source)
    &&& entries_merged(grown, source, now, course.entries, course.middle)
    &&& is_walk(course.reconciled, grown.groups.dom())
    &&& groups_agree(grown.groups, grown.root, source, now)
    &&& is_walk(course.deleted, grown.groups.dom())
    &&& after == reduced(settled_groups(course.middle, source, now), source)
}

/// What a merge of groups and entries reports.
pub open spec fn groups_notes(
    dest: DatabaseModel,
    source: DatabaseModel,
    now: NaiveDateTime,
    course: GroupsCourse,
) -> LogModel {
    let grown = with_new_groups(dest, source);
    let settled = settled_groups(course.middle, source, now);
    collected(course.created, |g: GroupId| group_creation_notes(g)).plus(
        collected(course.deleted, |g: GroupId| group_removal_notes(settled, source, g)),
    ).plus(entries_notes(grown, source, now, course.entries)).plus(
        collected(course.reconciled, |g: GroupId| shared_group_notes(grown.groups, source, now, g)),
    )
}

/// Why the groups and entries of the source could not be merged into the destination: the entries
/// could not, or they could but the groups could not.
pub open spec fn groups_merge_refused(
    dest: DatabaseModel,
    source: DatabaseModel,
    now: NaiveDateTime,
    error: MergeError,
) -> bool {
    let grown = with_new_groups(dest, source);
    ||| entries_refused(grown, source, now, error)
    ||| {
        &&& groups_refused(grown.groups, grown.root, source, now, error)
        &&& exists|course: EntriesCourse, middle: DatabaseModel| #[trigger]
            entries_merged(grown, source, now, course, middle)
    }
}

/// The destination has an undated group or entry that the source has too.
pub open spec fn has_undated(dest: DatabaseModel, source: DatabaseModel) -> bool {
    ||| exists|g: GroupId| #[trigger]
        group_shared(dest.groups, source, g) && dest.groups[g].times.last_modification is None
    ||| exists|e: EntryId| #[trigger]
        entry_shared(dest, source, e) && dest.entries[e].times.last_modification is None
}

/// Whether the destination has an undated group or entry that the source has too.
fn needs_clock(dest: &Database, source: &Database) -> (needed: bool)
    ensures
        needed == has_undated(dest@, source@),
{
    let ghost d = dest@;
    let ghost s = source@;
    let groups: Vec<GroupId> = dest.group_ids();
    let mut i: usize = 0;
    while i < groups.len()
        invariant
            i <= groups@.len(),
            d == dest@,
            s == source@,
            forall|g: GroupId| #[trigger] groups@.contains(g) <==> d.groups.contains_key(g),
            forall|j: int|
                0 <= j < i && s.groups.contains_key(#[trigger] groups@[j])
                    ==> d.groups[groups@[j]].times.last_modification is Some,
        decreases groups@.len() - i,
    {
        let id = groups[i];
        assert(groups@.contains(groups@[i as int]));
        match (dest.group(id), source.group(id)) {
            (Some(group), Some(_)) => {
                if group.times.last_modification.is_none() {
                    assert(group_shared(d.groups, s, id));
                    return true;
                }
            },
            _ => {},
        }
        i = i + 1;
    }
    assert forall|g: GroupId| #[trigger] group_shared(d.groups, s, g) implies d.groups[g].times.last_modification is Some by {
        assert(groups@.contains(g));
        let j = choose|j: int| 0 <= j < groups@.len() && groups@[j] == g;
        assert(s.groups.contains_key(groups@[j]));
    }
    let entries: Vec<EntryId> = dest.entry_ids();
    let mut i: usize = 0;
    while i < entries.len()
        invariant
            i <= entries@.len(),
            d == dest@,
            s == source@,
            forall|e: EntryId| #[trigger] entries@.contains(e) <==> d.entries.contains_key(e),
            forall|j: int|
                0 <= j < i && s.entries.contains_key(#[trigger] entries@[j])
                    ==> d.entries[entries@[j]].times.last_modification is Some,
        decreases entries@.len() - i,
    {
        let id = entries[i];
        assert(entries@.contains(entries@[i as int]));
        match (dest.entry(id), source.entry(id)) {
            (Some(entry), Some(_)) => {
                if entry.times.last_modification.is_none() {
                    assert(entry_shared(d, s, id));
                    return true;
                }
            },
            _ => {},
        }
        i = i + 1;
    }
    assert forall|e: EntryId| #[trigger] entry_shared(d, s, e) implies d.entries[e].times.last_modification is Some by {
        assert(entries@.contains(e));
        let j = choose|j: int| 0 <= j < entries@.len() && entries@[j] == e;
        assert(s.entries.contains_key(entries@[j]));
    }
    false
}

/// Merges the entries of the source into the destination, and the groups that both have.
fn settle(
    dest: &mut Database,
    source: &Database,
    now: NaiveDateTime,
    entry_log: &mut MergeLog,
    shared_log: &mut MergeLog,
) -> (result: Result<Ghost<(EntriesCourse, DatabaseModel, Seq<GroupId>)>, MergeError>)
    requires
        old(dest)@.wf(),
        source@.wf(),
    ensures
        final(dest)@.wf(),
        final(dest)@.root == old(dest)@.root,
        match result {
            Ok(course) => {
                let (entries, middle, walk) = course@;
                &&& entries_merged(old(dest)@, source@, now, entries, middle)
                &&& groups_agree(old(dest)@.groups, old(dest)@.root, source@, now)
                &&& is_walk(walk, old(dest)@.groups.dom())
                &&& final(dest)@ == settled_groups(middle, source@, now)
                &&& middle.groups == old(dest)@.groups
                &&& final(entry_log)@ == old(entry_log)@.plus(entries_notes(old(dest)@, source@, now, entries))
                &&& final(shared_log)@ == old(shared_log)@.plus(
                    collected(walk, |g: GroupId| shared_group_notes(old(dest)@.groups, source@, now, g)),
                )
            },
            Err(error) => {
                ||| entries_refused(old(dest)@, source@, now, error)
                ||| {
                    &&& groups_refused(old(dest)@.groups, old(dest)@.root, source@, now, error)
                    &&& exists|course: EntriesCourse, middle: DatabaseModel| #[trigger]
                        entries_merged(old(dest)@, source@, now, course, middle)
                }
            },
        },
{
    let ghost before = dest@;
    let ghost s = source@;
    let ghost written = entry_log@;
    match merge_entries(dest, source, now, entry_log) {
        Ok(_) => {},
        Err(error) => {
            return Err(error);
        },
    }
    let ghost middle = dest@;
    let ghost entries = choose|course: EntriesCourse|
        {
            &&& #[trigger] entries_merged(before, s, now, course, middle)
            &&& entry_log@ == written.plus(entries_notes(before, s, now, course))
        };
    let walk = match reconcile_groups(dest, source, now, shared_log) {
        Ok(walk) => walk,
        Err(error) => {
            assert(entries_merged(before, s, now, entries, middle));
            return Err(error);
        },
    };
    Ok(Ghost((entries, middle, walk@)))
}

/// Merges the groups of the source into the destination, and the entries in them.
///
/// Groups are removed last, once the entries and groups that both databases have are where they
/// belong, so that what was moved out of a deleted group stays. What the destination has without a
/// modification time counts as modified at the given moment. Without one the clock is read, if
/// there is such an object at all.
pub fn merge_groups(
    dest: &mut Database,
    source: &Database,
    moment: Option<NaiveDateTime>,
    log: &mut MergeLog,
) -> (result: Result<Ghost<(NaiveDateTime, GroupsCourse)>, MergeError>)
    requires
        old(dest)@.wf(),
        source@.wf(),
        !group_created(old(dest)@, source@, source@.root),
    ensures
        final(dest)@.wf(),
        final(dest)@.root == old(dest)@.root,
        match result {
            Ok(course) => {
                &&& is_moment(moment, course@.0)
                &&& groups_merged(old(dest)@, source@, course@.0, course@.1, final(dest)@)
                &&& final(log)@ == old(log)@.plus(groups_notes(old(dest)@, source@, course@.0, course@.1))
            },
            Err(error) => exists|now: NaiveDateTime|
                is_moment(moment, now) && #[trigger] groups_merge_refused(old(dest)@, source@, now, error),
        },
{
    let ghost d0 = dest@;
    let ghost s = source@;
    let created = add_new_groups(dest, source, log);
    let ghost grown = dest@;
    let now: NaiveDateTime = match moment {
        Some(now) => now,
        None => if needs_clock(dest, source) {
            NaiveDateTime::now()
        } else {
            NaiveDateTime::epoch()
        },
    };
    let mut entry_log = MergeLog::default();
    let mut shared_log = MergeLog::default();
    let settling: Ghost<(EntriesCourse, DatabaseModel, Seq<GroupId>)> = match settle(
        dest,
        source,
        now,
        &mut entry_log,
        &mut shared_log,
    ) {
        Ok(settling) => settling,
        Err(error) => {
            assert(groups_merge_refused(d0, s, now, error));
            return Err(error);
        },
    };
    let ghost (entries, middle, reconciled) = settling@;
    let ghost settled = dest@;
    let deleted = remove_deleted_groups(dest, source, log);
    log.append(entry_log);
    log.append(shared_log);
    let ghost course = GroupsCourse {
        created: created@,
        deleted: deleted@,
        entries,
        middle,
        reconciled,
    };
    proof {
        assert(settled.groups.dom() =~= grown.groups.dom());
        assert(groups_merged(d0, s, now, course, dest@));
    }
    Ok(Ghost((now, course)))
}

} // verus!

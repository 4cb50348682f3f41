//! Merging the groups that both databases have.
use vstd::prelude::*;

use crate::datetime::NaiveDateTime;
use crate::datum::Datum;
use crate::db::database::{lemma_next_unseen, parents, Database, DatabaseModel, MoveGroupError};
use crate::db::group::{Group, GroupModel};
use crate::db::times::{either, first_known, Times};
use crate::db::tree::{
    ancestor, lemma_acyclic, lemma_ancestor_add, lemma_ancestor_agree, lemma_ancestor_first,
    lemma_reparent, lemma_within_step, rooted, Tree,
};
use crate::ids::GroupId;
use crate::merge::diverge::{groups_diverged, have_groups_diverged};
use crate::merge::entries::{is_walk, known_or};
use crate::merge::log::{
    collected, group_log, lemma_collected_push, LogModel, MergeError, MergeEventTarget,
    MergeEventType, MergeLog, Warning,
};

verus! {

broadcast use group_log;

/// A table of groups.
pub type Groups = Map<GroupId, GroupModel>;

/// The source has the group in another place and moved it there later.
pub open spec fn group_relocates(dest: GroupModel, source: GroupModel) -> bool {
    &&& dest.parent != source.parent
    &&& dest.times.location_changed is Some
    &&& source.times.location_changed is Some
    &&& source.times.location_changed->0.is_after(dest.times.location_changed->0)
}

/// When the destination's group counts as modified.
pub open spec fn dest_group_modified(dest: GroupModel, now: NaiveDateTime) -> NaiveDateTime {
    known_or(dest.times.last_modification, now)
}

/// When the source's group counts as modified.
pub open spec fn source_group_modified(source: GroupModel) -> NaiveDateTime {
    known_or(source.times.last_modification, NaiveDateTime::spec_epoch())
}

/// The destination's group in the place in which the merged database has it.
pub open spec fn placed_group(dest: GroupModel, source: GroupModel) -> GroupModel {
    if group_relocates(dest, source) {
        GroupModel {
            parent: source.parent,
            times: Times { location_changed: source.times.location_changed, ..dest.times },
            ..dest
        }
    } else {
        dest
    }
}

/// What becomes of a group that both databases have. Where the group would have to move to a place
/// that the destination does not have, it stays as it is.
pub open spec fn reconciled_group(
    dest: GroupModel,
    source: GroupModel,
    target_present: bool,
    now: NaiveDateTime,
) -> GroupModel {
    let placed = placed_group(dest, source);
    if group_relocates(dest, source) && !target_present {
        dest
    } else if source_group_modified(source).is_after(dest_group_modified(dest, now)) {
        GroupModel {
            id: dest.id,
            parent: placed.parent,
            times: Times {
                last_modification: first_known(source.times.last_modification, dest.times.last_modification),
                ..placed.times
            },
            ..source
        }
    } else {
        placed
    }
}

/// Both versions count as modified at the same moment, and yet they differ in what counts.
pub open spec fn group_conflict(
    dest: GroupModel,
    source: GroupModel,
    target_present: bool,
    now: NaiveDateTime,
) -> bool {
    &&& group_relocates(dest, source) ==> target_present
    &&& dest_group_modified(dest, now) == source_group_modified(source)
    &&& groups_diverged(dest, source)
}

/// What is reported about the place of a group.
pub open spec fn group_placing_notes(dest: GroupModel, source: GroupModel, target_present: bool) -> LogModel {
    if dest.parent == source.parent {
        LogModel::empty()
    } else if dest.times.location_changed is None || source.times.location_changed is None {
        LogModel::warning(Warning::GroupMoveUndecided(dest.id))
    } else if !group_relocates(dest, source) {
        LogModel::empty()
    } else if source.parent is None {
        LogModel::warning(Warning::RootGroupMoved(dest.id))
    } else if !target_present {
        LogModel::warning(Warning::GroupMoveTargetMissing(dest.id, source.parent->0))
    } else {
        LogModel::event(MergeEventTarget::Group(dest.id), MergeEventType::LocationUpdated)
    }
}

/// What is reported about a group that both databases have. An undated version that is taken over
/// from the source, and that the destination has already, is no update.
pub open spec fn group_reconciling_notes(
    dest: GroupModel,
    source: GroupModel,
    target_present: bool,
    now: NaiveDateTime,
) -> LogModel {
    group_placing_notes(dest, source, target_present).plus(
        LogModel::warning(Warning::DestinationGroupUndated(dest.id)).only_if(
            dest.times.last_modification is None,
        ).plus(
            LogModel::warning(Warning::SourceGroupUndated(dest.id)).only_if(source.times.last_modification is None),
        ).plus(
            LogModel::event(MergeEventTarget::Group(dest.id), MergeEventType::Updated).only_if(
                reconciled_group(dest, source, target_present, now) != placed_group(dest, source),
            ),
        ).only_if(group_relocates(dest, source) ==> target_present),
    )
}

/// Whether the source has the group in another place and moved it there later.
fn is_relocated(dest: &Group, source: &Group) -> (relocated: bool)
    ensures
        relocated == group_relocates(dest.deep_view(), source.deep_view()),
{
    if dest.parent.same(&source.parent) {
        return false;
    }
    match (dest.times.location_changed, source.times.location_changed) {
        (Some(dlc), Some(slc)) => slc.after(&dlc),
        _ => false,
    }
}

/// Merges two versions of a group. Which of the two counts is decided by their modification times.
pub fn reconcile_group(
    dest: &Group,
    source: &Group,
    target_present: bool,
    now: NaiveDateTime,
    log: &mut MergeLog,
) -> (result: Result<Group, MergeError>)
    requires
        target_present ==> source.parent is Some,
    ensures
        match result {
            Ok(merged) => {
                &&& !group_conflict(dest.deep_view(), source.deep_view(), target_present, now)
                &&& merged.deep_view() == reconciled_group(dest.deep_view(), source.deep_view(), target_present, now)
                &&& final(log)@ == old(log)@.plus(
                    group_reconciling_notes(dest.deep_view(), source.deep_view(), target_present, now),
                )
            },
            Err(error) => {
                &&& group_conflict(dest.deep_view(), source.deep_view(), target_present, now)
                &&& error == MergeError::GroupModificationTimeNotUpdated(dest.id)
            },
        },
{
    let mut merged: Group = dest.clone();
    if is_relocated(dest, source) {
        match source.parent {
            None => {
                log.warn(Warning::RootGroupMoved(dest.id));
                return Ok(merged);
            },
            Some(parent) => {
                if !target_present {
                    log.warn(Warning::GroupMoveTargetMissing(dest.id, parent));
                    return Ok(merged);
                }
                merged.parent = Some(parent);
                merged.times.location_changed = source.times.location_changed;
                log.record(MergeEventTarget::Group(dest.id), MergeEventType::LocationUpdated);
            },
        }
    } else if !dest.parent.same(&source.parent) && (dest.times.location_changed.is_none()
        || source.times.location_changed.is_none()) {
        log.warn(Warning::GroupMoveUndecided(dest.id));
    }
    let dest_time: NaiveDateTime = match dest.times.last_modification {
        Some(t) => t,
        None => {
            log.warn(Warning::DestinationGroupUndated(dest.id));
            now
        },
    };
    let source_time: NaiveDateTime = match source.times.last_modification {
        Some(t) => t,
        None => {
            log.warn(Warning::SourceGroupUndated(dest.id));
            NaiveDateTime::epoch()
        },
    };
    if dest_time == source_time {
        if have_groups_diverged(dest, source) {
            // A group was updated without updating the modification time.
            return Err(MergeError::GroupModificationTimeNotUpdated(dest.id));
        }
        return Ok(merged);
    }
    if source_time.after(&dest_time) {
        let placed: Group = merged.clone();
        merged.name = source.name.duplicate();
        merged.notes = source.notes.duplicate();
        merged.icon = source.icon;
        merged.custom_data = source.custom_data.duplicate();
        merged.times.last_modification = either(source.times.last_modification, dest.times.last_modification);
        merged.is_expanded = source.is_expanded;
        merged.default_autotype_sequence = source.default_autotype_sequence.duplicate();
        merged.enable_autotype = source.enable_autotype;
        merged.enable_searching = source.enable_searching;
        merged.last_top_visible_entry = source.last_top_visible_entry;
        merged.previous_parent_group = source.previous_parent_group;
        merged.tags = source.tags.duplicate();
        if !merged.same(&placed) {
            log.record(MergeEventTarget::Group(dest.id), MergeEventType::Updated);
        }
    }
    Ok(merged)
}

/// The place of the source's group is one that the destination has.
pub open spec fn place_present(groups: Groups, source: GroupModel) -> bool {
    source.parent is Some && groups.contains_key(source.parent->0)
}

/// Both databases have the group.
pub open spec fn group_shared(groups: Groups, source: DatabaseModel, g: GroupId) -> bool {
    groups.contains_key(g) && source.groups.contains_key(g)
}

/// The group is moved to where the source has it.
pub open spec fn group_moves(groups: Groups, source: DatabaseModel, g: GroupId) -> bool {
    &&& group_shared(groups, source, g)
    &&& group_relocates(groups[g], source.groups[g])
    &&& place_present(groups, source.groups[g])
}

/// The versions of a group cannot be merged.
pub open spec fn shared_group_conflict(
    groups: Groups,
    source: DatabaseModel,
    now: NaiveDateTime,
    g: GroupId,
) -> bool {
    group_shared(groups, source, g) && group_conflict(
        groups[g],
        source.groups[g],
        place_present(groups, source.groups[g]),
        now,
    )
}

/// A group of the destination after the merge.
pub open spec fn merged_group(groups: Groups, source: DatabaseModel, now: NaiveDateTime, g: GroupId) -> GroupModel {
    if source.groups.contains_key(g) {
        reconciled_group(groups[g], source.groups[g], place_present(groups, source.groups[g]), now)
    } else {
        groups[g]
    }
}

/// The groups of the destination after the merge.
pub open spec fn merged_groups(groups: Groups, source: DatabaseModel, now: NaiveDateTime) -> Groups {
    Map::new(|g: GroupId| groups.contains_key(g), |g: GroupId| merged_group(groups, source, now, g))
}

/// What is reported about a group of the destination that the source may have too.
pub open spec fn shared_group_notes(
    groups: Groups,
    source: DatabaseModel,
    now: NaiveDateTime,
    g: GroupId,
) -> LogModel {
    group_reconciling_notes(groups[g], source.groups[g], place_present(groups, source.groups[g]), now).only_if(
        group_shared(groups, source, g),
    )
}

/// The groups that both databases have can be merged: no two versions conflict, the root stays
/// where it is, and the groups still form a tree after all moves.
pub open spec fn groups_agree(groups: Groups, root: GroupId, source: DatabaseModel, now: NaiveDateTime) -> bool {
    &&& forall|g: GroupId| !#[trigger] shared_group_conflict(groups, source, now, g)
    &&& !group_moves(groups, source, root)
    &&& rooted(parents(merged_groups(groups, source, now)), root)
}

/// Why the groups that both databases have could not be merged.
pub open spec fn groups_refused(
    groups: Groups,
    root: GroupId,
    source: DatabaseModel,
    now: NaiveDateTime,
    error: MergeError,
) -> bool {
    match error {
        MergeError::GroupModificationTimeNotUpdated(g) => shared_group_conflict(groups, source, now, g),
        MergeError::MoveGroupError(MoveGroupError::RootGroup) => group_moves(groups, source, root),
        MergeError::MoveGroupError(MoveGroupError::IntoOwnSubtree) => !rooted(
            parents(merged_groups(groups, source, now)),
            root,
        ),
        _ => false,
    }
}

/// A group on its way: one that moves hangs below the root until all groups have been merged.
spec fn staged_group(groups: Groups, root: GroupId, source: DatabaseModel, now: NaiveDateTime, g: GroupId) -> GroupModel {
    let merged = merged_group(groups, source, now, g);
    if group_moves(groups, source, g) {
        GroupModel { parent: Some(root), ..merged }
    } else {
        merged
    }
}

/// Merges the groups that both databases have, and hangs those that move below the root.
fn stage_groups(dest: &mut Database, source: &Database, now: NaiveDateTime, log: &mut MergeLog) -> (result: Result<
    (Vec<(GroupId, GroupId)>, Ghost<Seq<GroupId>>),
    MergeError,
>)
    requires
        old(dest)@.wf(),
        source@.wf(),
    ensures
        final(dest)@.wf(),
        final(dest)@.root == old(dest)@.root,
        match result {
            Ok((moves, walk)) => {
                &&& is_walk(walk@, old(dest)@.groups.dom())
                &&& final(log)@ == old(log)@.plus(
                    collected(walk@, |g: GroupId| shared_group_notes(old(dest)@.groups, source@, now, g)),
                )
                &&& final(dest)@ == DatabaseModel { groups: final(dest)@.groups, ..old(dest)@ }
                &&& final(dest)@.groups == Map::new(
                    |g: GroupId| old(dest)@.groups.contains_key(g),
                    |g: GroupId| staged_group(old(dest)@.groups, old(dest)@.root, source@, now, g),
                )
                &&& forall|g: GroupId| !#[trigger] shared_group_conflict(old(dest)@.groups, source@, now, g)
                &&& !group_moves(old(dest)@.groups, source@, old(dest)@.root)
                &&& forall|j: int|
                    0 <= j < moves@.len() ==> group_moves(old(dest)@.groups, source@, (#[trigger] moves@[j]).0)
                        && source@.groups[moves@[j].0].parent == Some(moves@[j].1)
                &&& forall|g: GroupId| #[trigger]
                    group_moves(old(dest)@.groups, source@, g) ==> exists|j: int|
                        0 <= j < moves@.len() && (#[trigger] moves@[j]).0 == g
            },
            Err(error) => groups_refused(old(dest)@.groups, old(dest)@.root, source@, now, error)
                && !(error matches MergeError::MoveGroupError(MoveGroupError::IntoOwnSubtree)),
        },
{
    let ids: Vec<GroupId> = dest.group_ids();
    let root: GroupId = dest.root_id();
    let ghost before = dest@;
    let ghost groups = dest@.groups;
    let ghost s = source@;
    let ghost notes = |g: GroupId| shared_group_notes(groups, s, now, g);
    let mut moves: Vec<(GroupId, GroupId)> = Vec::new();
    let mut i: usize = 0;
    assert(ids@.take(0) =~= Seq::<GroupId>::empty());
    while i < ids.len()
        invariant
            i <= ids@.len(),
            ids@.no_duplicates(),
            before == old(dest)@,
            before.wf(),
            groups == before.groups,
            root == before.root,
            s == source@,
            s.wf(),
            notes == (|g: GroupId| shared_group_notes(groups, s, now, g)),
            forall|g: GroupId| #[trigger] ids@.contains(g) <==> groups.contains_key(g),
            dest@.wf(),
            dest@ == (DatabaseModel { groups: dest@.groups, ..before }),
            forall|g: GroupId| #[trigger] dest@.groups.contains_key(g) <==> groups.contains_key(g),
            forall|g: GroupId| #[trigger]
                dest@.groups.contains_key(g) ==> dest@.groups[g] == if ids@.take(i as int).contains(g) {
                    staged_group(groups, root, s, now, g)
                } else {
                    groups[g]
                },
            log@ == old(log)@.plus(collected(ids@.take(i as int), notes)),
            forall|g: GroupId|
                ids@.take(i as int).contains(g) ==> !#[trigger] shared_group_conflict(groups, s, now, g),
            ids@.take(i as int).contains(root) ==> !group_moves(groups, s, root),
            forall|j: int|
                0 <= j < moves@.len() ==> group_moves(groups, s, (#[trigger] moves@[j]).0)
                    && s.groups[moves@[j].0].parent == Some(moves@[j].1),
            forall|g: GroupId|
                ids@.take(i as int).contains(g) && #[trigger] group_moves(groups, s, g) ==> exists|j: int|
                    0 <= j < moves@.len() && (#[trigger] moves@[j]).0 == g,
        decreases ids@.len() - i,
    {
        let id = ids[i];
        let ghost mid = dest@;
        let ghost old_moves = moves@;
        proof {
            lemma_collected_push(ids@, i as int, notes);
            lemma_next_unseen(ids@, i as int);
            assert(groups[id].id == id);
        }
        match (dest.group(id), source.group(id)) {
            (Some(dest_group), Some(source_group)) => {
                let target: Option<GroupId> = match source_group.parent {
                    Some(parent) => if dest.group(parent).is_some() {
                        Some(parent)
                    } else {
                        None
                    },
                    None => None,
                };
                let moved: bool = target.is_some() && is_relocated(dest_group, source_group);
                assert(moved == group_moves(groups, s, id));
                if moved && id == root {
                    return Err(MergeError::MoveGroupError(MoveGroupError::RootGroup));
                }
                let mut merged: Group = match reconcile_group(dest_group, source_group, target.is_some(), now, log) {
                    Ok(merged) => merged,
                    Err(error) => {
                        proof {
                            assert(shared_group_conflict(groups, s, now, id));
                        }
                        return Err(error);
                    },
                };
                assert(merged.deep_view() == merged_group(groups, s, now, id));
                match target {
                    Some(parent) => {
                        if moved {
                            merged.parent = Some(root);
                            moves.push((id, parent));
                        }
                    },
                    None => {},
                }
                assert(merged.deep_view() == staged_group(groups, root, s, now, id));
                dest.put_group(merged);
                proof {
                    if moved {
                        lemma_within_step(mid.tree(), root, id);
                        lemma_reparent(mid.tree(), root, id, root);
                        assert(dest@.tree() =~= mid.tree().insert(id, Some(root)));
                    } else {
                        assert(dest@.tree() =~= mid.tree());
                    }
                }
            },
            _ => {},
        }
        proof {
            assert forall|g: GroupId| ids@.take(i + 1).contains(g) && #[trigger] group_moves(
                groups,
                s,
                g,
            ) implies exists|j: int| 0 <= j < moves@.len() && (#[trigger] moves@[j]).0 == g by {
                if g == id {
                    assert(moves@[moves@.len() - 1].0 == id);
                } else {
                    let j = choose|j: int| 0 <= j < old_moves.len() && (#[trigger] old_moves[j]).0 == g;
                    assert(moves@[j] == old_moves[j]);
                }
            }
        }
        i = i + 1;
    }
    proof {
        assert(ids@.take(ids@.len() as int) =~= ids@);
        assert(ids@.to_set() =~= groups.dom());
        assert forall|g: GroupId| !#[trigger] shared_group_conflict(groups, s, now, g) by {
            if groups.contains_key(g) {
                assert(ids@.contains(g));
            }
        }
        assert(groups.contains_key(root));
        assert(ids@.contains(root));
        assert forall|g: GroupId| #[trigger] group_moves(groups, s, g) implies exists|j: int|
            0 <= j < moves@.len() && (#[trigger] moves@[j]).0 == g by {
            assert(ids@.contains(g));
        }
        assert(dest@.groups =~= Map::new(
            |g: GroupId| groups.contains_key(g),
            |g: GroupId| staged_group(groups, root, s, now, g),
        ));
    }
    Ok((moves, Ghost(ids@)))
}

/// A climb that ends below the root passes no group that still waits below the root for its move,
/// so it is the same after all moves.
proof fn lemma_climb_settled(t: Tree, f: Tree, root: GroupId, waiting: Set<GroupId>, x: GroupId, y: GroupId, n: nat)
    requires
        t.contains_key(root),
        t[root] is None,
        y != root,
        forall|g: GroupId| #[trigger] waiting.contains(g) ==> t.contains_key(g) && t[g] == Some(root),
        forall|g: GroupId|
            !waiting.contains(g) ==> (#[trigger] t.contains_key(g) <==> f.contains_key(g)) && (t.contains_key(g)
                ==> t[g] == f[g]),
        ancestor(t, x, n) == Some(y),
    ensures
        ancestor(f, x, n) == Some(y),
{
    assert forall|k: nat| k < n && ancestor(t, x, k) is Some implies {
        let a = (#[trigger] ancestor(t, x, k))->0;
        t.contains_key(a) == f.contains_key(a) && (t.contains_key(a) ==> t[a] == f[a])
    } by {
        let a = ancestor(t, x, k)->0;
        if waiting.contains(a) {
            assert(ancestor(t, x, k + 1) == Some(root));
            if k + 1 < n {
                assert(ancestor(t, x, k + 2) is None);
                lemma_ancestor_add(t, x, k + 2, (n - (k + 2)) as nat);
            }
        } else {
            assert(t.contains_key(a) <==> f.contains_key(a));
        }
    }
    lemma_ancestor_agree(t, f, x, n);
}

/// Merges the groups that both databases have.
///
/// To allow for groups that trade places, all groups that move are first hung below the root and
/// then moved to where they belong.
pub fn reconcile_groups(dest: &mut Database, source: &Database, now: NaiveDateTime, log: &mut MergeLog) -> (result: Result<
    Ghost<Seq<GroupId>>,
    MergeError,
>)
    requires
        old(dest)@.wf(),
        source@.wf(),
    ensures
        final(dest)@.wf(),
        final(dest)@.root == old(dest)@.root,
        match result {
            Ok(walk) => {
                &&& is_walk(walk@, old(dest)@.groups.dom())
                &&& final(log)@ == old(log)@.plus(
                    collected(walk@, |g: GroupId| shared_group_notes(old(dest)@.groups, source@, now, g)),
                )
                &&& groups_agree(old(dest)@.groups, old(dest)@.root, source@, now)
                &&& final(dest)@ == DatabaseModel {
                    groups: merged_groups(old(dest)@.groups, source@, now),
                    ..old(dest)@
                }
            },
            Err(error) => groups_refused(old(dest)@.groups, old(dest)@.root, source@, now, error),
        },
{
    let ghost before = dest@;
    let ghost groups = dest@.groups;
    let ghost root = dest@.root;
    let ghost s = source@;
    let ghost goal = merged_groups(groups, s, now);
    let (moves, walk) = match stage_groups(dest, source, now, log) {
        Ok(staged) => staged,
        Err(error) => {
            return Err(error);
        },
    };
    let ghost staged = dest@.groups;
    let mut i: usize = 0;
    // The groups whose move is done.
    let ghost mut done: Set<GroupId> = Set::empty();
    while i < moves.len()
        invariant
            i <= moves@.len(),
            before == old(dest)@,
            before.wf(),
            groups == before.groups,
            root == before.root,
            s == source@,
            goal == merged_groups(groups, s, now),
            staged == Map::new(
                |g: GroupId| groups.contains_key(g),
                |g: GroupId| staged_group(groups, root, s, now, g),
            ),
            !group_moves(groups, s, root),
            forall|j: int|
                0 <= j < moves@.len() ==> group_moves(groups, s, (#[trigger] moves@[j]).0)
                    && s.groups[moves@[j].0].parent == Some(moves@[j].1),
            dest@.wf(),
            dest@ == (DatabaseModel { groups: dest@.groups, ..before }),
            forall|g: GroupId| #[trigger] dest@.groups.contains_key(g) <==> groups.contains_key(g),
            forall|g: GroupId| #[trigger]
                dest@.groups.contains_key(g) ==> dest@.groups[g] == if done.contains(g) {
                    goal[g]
                } else {
                    staged[g]
                },
            forall|g: GroupId| #[trigger] done.contains(g) ==> group_moves(groups, s, g),
            forall|j: int| 0 <= j < i ==> done.contains((#[trigger] moves@[j]).0),
        decreases moves@.len() - i,
    {
        let (id, parent) = moves[i];
        let ghost mid = dest@;
        proof {
            assert(group_moves(groups, s, moves@[i as int].0));
            assert(dest@.groups.contains_key(id));
        }
        match dest.move_group(id, parent) {
            Ok(_) => {
                proof {
                    done = done.insert(id);
                    assert(goal[id].parent == Some(parent));
                    assert(dest@.groups[id] == goal[id]);
                }
            },
            Err(error) => {
                proof {
                    assert(id != root);
                    assert(dest@.groups.contains_key(parent));
                    assert(error == MoveGroupError::IntoOwnSubtree);
                    let t = mid.tree();
                    let f = parents(goal);
                    let n = choose|n: nat| ancestor(t, parent, n) == Some(id);
                    let waiting = Set::new(|g: GroupId| group_moves(groups, s, g) && !done.contains(g));
                    assert forall|g: GroupId| !waiting.contains(g) implies (#[trigger] t.contains_key(g)
                        <==> f.contains_key(g)) && (t.contains_key(g) ==> t[g] == f[g]) by {
                        assert(mid.groups.contains_key(g) <==> groups.contains_key(g));
                    }
                    assert forall|g: GroupId| #[trigger] waiting.contains(g) implies t.contains_key(g) && t[g] == Some(
                        root,
                    ) by {
                        assert(mid.groups.contains_key(g));
                    }
                    lemma_climb_settled(t, f, root, waiting, parent, id, n);
                    if rooted(f, root) {
                        assert(f.contains_key(id));
                        assert(f[id] == Some(parent));
                        lemma_ancestor_first(f, id, n + 1);
                        lemma_acyclic(f, root, id, n + 1);
                    }
                }
                return Err(MergeError::MoveGroupError(error));
            },
        }
        i = i + 1;
    }
    proof {
        assert forall|g: GroupId| groups.contains_key(g) implies dest@.groups[g] == goal[g] by {
            assert(dest@.groups.contains_key(g));
            if group_moves(groups, s, g) {
                let j = choose|j: int| 0 <= j < moves@.len() && (#[trigger] moves@[j]).0 == g;
                assert(done.contains(moves@[j].0));
            }
        }
        assert(dest@.groups =~= goal);
    }
    Ok(walk)
}

} // verus!

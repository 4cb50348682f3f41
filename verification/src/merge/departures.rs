//! The groups that a merge removes from the destination.
use vstd::prelude::*;

use crate::datetime::NaiveDateTime;
use crate::db::database::{
    lemma_push_contains, lemma_without_groups_twice, lemma_without_no_groups, without_groups,
    Database, DatabaseModel,
};
use crate::db::tree::{
    ancestor, lemma_ancestor_add, lemma_ancestor_first, lemma_ancestor_in_tree, lemma_within_self,
    within, within_any, Tree,
};
use crate::ids::{EntryId, GroupId, Uuid};
use crate::merge::entries::{is_walk, spared};
use crate::merge::log::{
    collected, group_log, lemma_collected_push, LogModel, MergeEventTarget, MergeEventType,
    MergeLog,
};

verus! {

broadcast use group_log;

/// The deletion that decides about a group and what stands in it is `n` steps up: the first one on
/// record under the identifier of the group or of a group above it.
pub open spec fn decided_at(t: Tree, deleted: Map<Uuid, Option<NaiveDateTime>>, g: GroupId, n: nat) -> bool {
    &&& ancestor(t, g, n) is Some
    &&& deleted.contains_key(ancestor(t, g, n)->0.uuid)
    &&& forall|m: nat| m < n ==> !deleted.contains_key((#[trigger] ancestor(t, g, m))->0.uuid)
}

/// What was last changed at a moment, and stands in a group, was changed after the deletion that
/// decides about it.
pub open spec fn outdates_deletion(
    t: Tree,
    deleted: Map<Uuid, Option<NaiveDateTime>>,
    g: GroupId,
    change: Option<NaiveDateTime>,
) -> bool {
    exists|n: nat| #[trigger]
        decided_at(t, deleted, g, n) && spared(change, deleted[ancestor(t, g, n)->0.uuid])
}

/// A group lasts, even if it stands below a deleted one: the source has it, or it was changed after
/// the deletion that decides about it.
pub open spec fn group_lasts(dest: DatabaseModel, source: DatabaseModel, g: GroupId) -> bool {
    ||| source.groups.contains_key(g)
    ||| outdates_deletion(dest.tree(), source.deleted_objects, g, dest.groups[g].times.spec_last_change())
}

/// An entry that merging entries has left lasts, even if it stands below a deleted group: the
/// source has it, it was changed after the source deleted it, or it was changed after the deletion
/// that decides about its group.
pub open spec fn entry_lasts(dest: DatabaseModel, source: DatabaseModel, e: EntryId) -> bool {
    ||| source.entries.contains_key(e)
    ||| source.deleted_objects.contains_key(e.uuid)
    ||| outdates_deletion(
        dest.tree(),
        source.deleted_objects,
        dest.entries[e].parent,
        dest.entries[e].times.spec_last_change(),
    )
}

/// Nothing that lasts stands in the group or below it, and the group does not last itself.
#[verifier::opaque]
pub open spec fn nothing_lasts(dest: DatabaseModel, source: DatabaseModel, top: GroupId) -> bool {
    &&& forall|g: GroupId| #[trigger]
        dest.groups.contains_key(g) && within(dest.tree(), g, top) ==> !group_lasts(dest, source, g)
    &&& forall|e: EntryId| #[trigger]
        dest.entries.contains_key(e) && within(dest.tree(), dest.entries[e].parent, top) ==> !entry_lasts(
            dest,
            source,
            e,
        )
}

/// The source deleted the group, and nothing in it lasts. The root stays in any case.
pub open spec fn group_gone(dest: DatabaseModel, source: DatabaseModel, g: GroupId) -> bool {
    &&& dest.groups.contains_key(g)
    &&& g != dest.root
    &&& source.deleted_objects.contains_key(g.uuid)
    &&& nothing_lasts(dest, source, g)
}

/// The groups that are removed with everything in them.
pub open spec fn gone_groups(dest: DatabaseModel, source: DatabaseModel) -> Set<GroupId> {
    Set::new(|g: GroupId| group_gone(dest, source, g))
}

/// The deletions that the destination has on record once it knows which groups are to go.
pub open spec fn deletions_with_groups(dest: DatabaseModel, source: DatabaseModel) -> Map<Uuid, Option<NaiveDateTime>> {
    Map::new(
        |u: Uuid| dest.deleted_objects.contains_key(u) || group_gone(dest, source, GroupId { uuid: u }),
        |u: Uuid|
            if group_gone(dest, source, GroupId { uuid: u }) {
                source.deleted_objects[u]
            } else {
                dest.deleted_objects[u]
            },
    )
}

/// What is reported about a group that the source may have deleted.
pub open spec fn group_removal_notes(dest: DatabaseModel, source: DatabaseModel, g: GroupId) -> LogModel {
    LogModel::event(MergeEventTarget::Group(g), MergeEventType::Deleted).only_if(group_gone(dest, source, g))
}

/// A group that the source has does not go.
pub proof fn lemma_kept_by_source(dest: DatabaseModel, source: DatabaseModel, g: GroupId)
    requires
        source.groups.contains_key(g),
    ensures
        !group_gone(dest, source, g),
{
    reveal(nothing_lasts);
    lemma_within_self(dest.tree(), g);
    assert(group_lasts(dest, source, g));
}

/// Which groups are to go depends on the tree, the times and the deletions alone.
pub proof fn lemma_gone_alike(
    dest: DatabaseModel,
    source: DatabaseModel,
    other_dest: DatabaseModel,
    other_source: DatabaseModel,
    g: GroupId,
)
    requires
        other_dest.tree() == dest.tree(),
        other_dest.root == dest.root,
        other_dest.groups.dom() == dest.groups.dom(),
        other_dest.entries.dom() == dest.entries.dom(),
        forall|x: GroupId| #[trigger]
            dest.groups.contains_key(x) ==> other_dest.groups[x].times == dest.groups[x].times,
        forall|e: EntryId| #[trigger]
            dest.entries.contains_key(e) ==> other_dest.entries[e].times == dest.entries[e].times
                && other_dest.entries[e].parent == dest.entries[e].parent,
        other_source.groups.dom() == source.groups.dom(),
        other_source.entries.dom() == source.entries.dom(),
        other_source.deleted_objects == source.deleted_objects,
    ensures
        group_gone(other_dest, other_source, g) == group_gone(dest, source, g),
{
    assert forall|x: GroupId| dest.groups.contains_key(x) <==> #[trigger] other_dest.groups.contains_key(x) by {
        assert(dest.groups.dom().contains(x) <==> other_dest.groups.dom().contains(x));
    }
    assert forall|e: EntryId| dest.entries.contains_key(e) <==> #[trigger] other_dest.entries.contains_key(e) by {
        assert(dest.entries.dom().contains(e) <==> other_dest.entries.dom().contains(e));
    }
    assert forall|x: GroupId| source.groups.contains_key(x) <==> #[trigger] other_source.groups.contains_key(x) by {
        assert(source.groups.dom().contains(x) <==> other_source.groups.dom().contains(x));
    }
    assert forall|e: EntryId| source.entries.contains_key(e) <==> #[trigger] other_source.entries.contains_key(e) by {
        assert(source.entries.dom().contains(e) <==> other_source.entries.dom().contains(e));
    }
    assert forall|x: GroupId| dest.groups.contains_key(x) implies group_lasts(other_dest, other_source, x)
        == #[trigger] group_lasts(dest, source, x) by {}
    assert forall|e: EntryId| dest.entries.contains_key(e) implies entry_lasts(other_dest, other_source, e)
        == #[trigger] entry_lasts(dest, source, e) by {}
    reveal(nothing_lasts);
    if nothing_lasts(dest, source, g) {
        assert(nothing_lasts(other_dest, other_source, g));
    }
    if nothing_lasts(other_dest, other_source, g) {
        assert(nothing_lasts(dest, source, g));
    }
}

/// Whether something that stands in a group was changed after the deletion that decides about it.
fn outlasts_deletion(
    dest: &Database,
    source: &Database,
    group: GroupId,
    change: Option<NaiveDateTime>,
) -> (lasts: bool)
    requires
        dest@.wf(),
        dest@.groups.contains_key(group),
    ensures
        lasts == outdates_deletion(dest@.tree(), source@.deleted_objects, group, change),
{
    let ghost t = dest@.tree();
    let ghost deleted = source@.deleted_objects;
    let ghost root = dest@.root;
    let mut at: GroupId = group;
    let ghost mut steps: nat = 0;
    assert(t.contains_key(group));
    let ghost mut depth: nat = choose|n: nat| ancestor(t, group, n) == Some(root);
    loop
        invariant
            t == dest@.tree(),
            deleted == source@.deleted_objects,
            root == dest@.root,
            dest@.wf(),
            t.contains_key(at),
            ancestor(t, group, steps) == Some(at),
            ancestor(t, at, depth) == Some(root),
            forall|m: nat| m < steps ==> !deleted.contains_key((#[trigger] ancestor(t, group, m))->0.uuid),
        decreases depth,
    {
        match source.deletion(at.uuid) {
            Some(deletion) => {
                let lasts: bool = changed_after(change, deletion);
                proof {
                    assert(decided_at(t, deleted, group, steps));
                    assert forall|n: nat| #[trigger] decided_at(t, deleted, group, n) implies n == steps by {
                        if n < steps {
                            assert(!deleted.contains_key(ancestor(t, group, n)->0.uuid));
                        }
                    }
                }
                return lasts;
            },
            None => {},
        }
        proof {
            if depth > 0 {
                lemma_ancestor_first(t, at, depth);
            }
            assert(ancestor(t, group, steps + 1) == t[at]);
        }
        let parent: Option<GroupId> = match dest.group(at) {
            Some(g) => g.parent,
            None => None,
        };
        match parent {
            Some(p) => {
                at = p;
                proof {
                    depth = (depth - 1) as nat;
                    steps = steps + 1;
                }
            },
            None => {
                proof {
                    assert forall|n: nat| !#[trigger] decided_at(t, deleted, group, n) by {
                        if decided_at(t, deleted, group, n) {
                            if n > steps {
                                let more = (n - steps - 1) as nat;
                                lemma_ancestor_add(t, group, steps + 1, more);
                            } else {
                                assert(!deleted.contains_key(ancestor(t, group, n)->0.uuid));
                            }
                        }
                    }
                }
                return false;
            },
        }
    }
}

/// Whether something was changed after its deletion, both moments being known.
fn changed_after(last: Option<NaiveDateTime>, deletion: Option<NaiveDateTime>) -> (later: bool)
    ensures
        later == spared(last, deletion),
{
    match (deletion, last) {
        (Some(deletion), Some(last)) => last.after(&deletion),
        _ => false,
    }
}

/// The group lasts, or an entry in it does.
spec fn is_lasting_place(dest: DatabaseModel, source: DatabaseModel, g: GroupId) -> bool {
    ||| dest.groups.contains_key(g) && group_lasts(dest, source, g)
    ||| exists|e: EntryId| #[trigger]
        dest.entries.contains_key(e) && dest.entries[e].parent == g && entry_lasts(dest, source, e)
}

/// The groups that last, and the groups of the entries that do.
fn lasting_places(dest: &Database, source: &Database) -> (places: Vec<GroupId>)
    requires
        dest@.wf(),
    ensures
        forall|g: GroupId| #[trigger] places@.contains(g) <==> is_lasting_place(dest@, source@, g),
{
    let ghost d = dest@;
    let ghost s = source@;
    let mut places: Vec<GroupId> = Vec::new();
    let groups: Vec<GroupId> = dest.group_ids();
    let mut i: usize = 0;
    while i < groups.len()
        invariant
            i <= groups@.len(),
            d == dest@,
            s == source@,
            d.wf(),
            forall|g: GroupId| #[trigger] groups@.contains(g) <==> d.groups.contains_key(g),
            forall|g: GroupId| #[trigger]
                places@.contains(g) <==> groups@.take(i as int).contains(g) && group_lasts(d, s, g),
        decreases groups@.len() - i,
    {
        let id = groups[i];
        proof {
            assert(groups@.contains(groups@[i as int]));
            assert(groups@.take(i + 1) =~= groups@.take(i as int).push(id));
            lemma_push_contains(groups@.take(i as int), id);
            lemma_push_contains(places@, id);
        }
        match dest.group(id) {
            Some(group) => {
                if source.group(id).is_some() || outlasts_deletion(dest, source, id, group.times.last_change()) {
                    places.push(id);
                }
            },
            None => {},
        }
        i = i + 1;
    }
    assert(groups@.take(groups@.len() as int) =~= groups@);
    let ghost first = places@;
    let entries: Vec<EntryId> = dest.entry_ids();
    let mut i: usize = 0;
    while i < entries.len()
        invariant
            i <= entries@.len(),
            d == dest@,
            s == source@,
            d.wf(),
            forall|e: EntryId| #[trigger] entries@.contains(e) <==> d.entries.contains_key(e),
            forall|g: GroupId| #[trigger] first.contains(g) <==> d.groups.contains_key(g) && group_lasts(d, s, g),
            forall|g: GroupId| #[trigger] first.contains(g) ==> places@.contains(g),
            forall|j: int|
                0 <= j < i && entry_lasts(d, s, #[trigger] entries@[j]) ==> places@.contains(
                    d.entries[entries@[j]].parent,
                ),
            forall|g: GroupId| #[trigger] places@.contains(g) ==> is_lasting_place(d, s, g),
        decreases entries@.len() - i,
    {
        let id = entries[i];
        proof {
            assert(entries@.contains(entries@[i as int]));
            lemma_push_contains(places@, d.entries[id].parent);
        }
        match dest.entry(id) {
            Some(entry) => {
                assert(d.groups.contains_key(entry.parent));
                if source.entry(id).is_some() || source.deletion(id.uuid).is_some() || outlasts_deletion(
                    dest,
                    source,
                    entry.parent,
                    entry.times.last_change(),
                ) {
                    assert(is_lasting_place(d, s, d.entries[id].parent));
                    places.push(entry.parent);
                }
            },
            None => {},
        }
        i = i + 1;
    }
    assert forall|g: GroupId| is_lasting_place(d, s, g) implies #[trigger] places@.contains(g) by {
        if d.groups.contains_key(g) && group_lasts(d, s, g) {
            assert(first.contains(g));
        } else {
            let e = choose|e: EntryId| #[trigger]
                d.entries.contains_key(e) && d.entries[e].parent == g && entry_lasts(d, s, e);
            assert(entries@.contains(e));
            let j = choose|j: int| 0 <= j < entries@.len() && entries@[j] == e;
            assert(entry_lasts(d, s, entries@[j]));
        }
    }
    places
}

/// Whether something that lasts stands in a group or below it.
fn something_lasts(dest: &Database, source: &Database, places: &Vec<GroupId>, top: GroupId) -> (lasts: bool)
    requires
        dest@.wf(),
        forall|g: GroupId| #[trigger] places@.contains(g) <==> is_lasting_place(dest@, source@, g),
    ensures
        lasts == !nothing_lasts(dest@, source@, top),
{
    let ghost d = dest@;
    let ghost s = source@;
    let ghost t = d.tree();
    let mut i: usize = 0;
    while i < places.len()
        invariant
            i <= places@.len(),
            d == dest@,
            s == source@,
            d.wf(),
            t == d.tree(),
            forall|g: GroupId| #[trigger] places@.contains(g) <==> is_lasting_place(d, s, g),
            forall|j: int| 0 <= j < i ==> !within(t, #[trigger] places@[j], top),
        decreases places@.len() - i,
    {
        let place = places[i];
        assert(places@.contains(places@[i as int]));
        assert(is_lasting_place(d, s, place));
        assert(d.groups.contains_key(place)) by {
            if !d.groups.contains_key(place) {
                let e = choose|e: EntryId| #[trigger]
                    d.entries.contains_key(e) && d.entries[e].parent == place && entry_lasts(d, s, e);
                assert(d.groups.contains_key(d.entries[e].parent));
            }
        }
        if dest.is_within(place, top) {
            proof {
                reveal(nothing_lasts);
            }
            return true;
        }
        i = i + 1;
    }
    proof {
        reveal(nothing_lasts);
        assert forall|g: GroupId| #[trigger] d.groups.contains_key(g) && within(t, g, top) implies !group_lasts(
            d,
            s,
            g,
        ) by {
            if group_lasts(d, s, g) {
                assert(places@.contains(g));
                let j = choose|j: int| 0 <= j < places@.len() && places@[j] == g;
                assert(!within(t, places@[j], top));
            }
        }
        assert forall|e: EntryId| #[trigger] d.entries.contains_key(e) && within(
            t,
            d.entries[e].parent,
            top,
        ) implies !entry_lasts(d, s, e) by {
            if entry_lasts(d, s, e) {
                let g = d.entries[e].parent;
                assert(is_lasting_place(d, s, g));
                assert(places@.contains(g));
                let j = choose|j: int| 0 <= j < places@.len() && places@[j] == g;
                assert(!within(t, places@[j], top));
            }
        }
    }
    false
}

/// Lists the groups that are to go, reports them, and notes the moments of their deletions.
fn find_gone_groups(
    dest: &Database,
    source: &Database,
    ids: &Vec<GroupId>,
    log: &mut MergeLog,
) -> (result: (Vec<GroupId>, Vec<Option<NaiveDateTime>>))
    requires
        dest@.wf(),
        forall|g: GroupId| #[trigger] ids@.contains(g) <==> dest@.groups.contains_key(g),
    ensures
        forall|g: GroupId| #[trigger] result.0@.contains(g) <==> group_gone(dest@, source@, g),
        result.1@.len() == result.0@.len(),
        forall|j: int|
            0 <= j < result.0@.len() ==> result.1@[j] == source@.deleted_objects[(#[trigger] result.0@[j]).uuid],
        final(log)@ == old(log)@.plus(collected(ids@, |g: GroupId| group_removal_notes(dest@, source@, g))),
{
    let ghost s = source@;
    let ghost d = dest@;
    let ghost notes = |g: GroupId| group_removal_notes(d, s, g);
    let places: Vec<GroupId> = lasting_places(dest, source);
    let mut gone: Vec<GroupId> = Vec::new();
    let mut deletions: Vec<Option<NaiveDateTime>> = Vec::new();
    let mut i: usize = 0;
    assert(ids@.take(0) =~= Seq::<GroupId>::empty());
    while i < ids.len()
        invariant
            i <= ids@.len(),
            d == dest@,
            d.wf(),
            s == source@,
            notes == (|g: GroupId| group_removal_notes(d, s, g)),
            forall|g: GroupId| #[trigger] ids@.contains(g) <==> d.groups.contains_key(g),
            forall|g: GroupId| #[trigger] places@.contains(g) <==> is_lasting_place(d, s, g),
            forall|g: GroupId| #[trigger]
                gone@.contains(g) <==> ids@.take(i as int).contains(g) && group_gone(d, s, g),
            deletions@.len() == gone@.len(),
            forall|j: int|
                0 <= j < gone@.len() ==> deletions@[j] == s.deleted_objects[(#[trigger] gone@[j]).uuid],
            log@ == old(log)@.plus(collected(ids@.take(i as int), notes)),
        decreases ids@.len() - i,
    {
        let id = ids[i];
        proof {
            assert(ids@.contains(ids@[i as int]));
            lemma_collected_push(ids@, i as int, notes);
            assert(ids@.take(i + 1) =~= ids@.take(i as int).push(id));
            lemma_push_contains(ids@.take(i as int), id);
            lemma_push_contains(gone@, id);
        }
        match source.deletion(id.uuid) {
            Some(deletion) => {
                if id != dest.root_id() && !something_lasts(dest, source, &places, id) {
                    assert(group_gone(d, s, id));
                    gone.push(id);
                    deletions.push(deletion);
                    log.record(MergeEventTarget::Group(id), MergeEventType::Deleted);
                }
            },
            None => {},
        }
        i = i + 1;
    }
    assert(ids@.take(ids@.len() as int) =~= ids@);
    (gone, deletions)
}

/// Records the deletion of the groups that are to go, and lists these groups. They are not removed
/// yet.
fn record_group_deletions(
    dest: &mut Database,
    source: &Database,
    ids: &Vec<GroupId>,
    log: &mut MergeLog,
) -> (gone: Vec<GroupId>)
    requires
        old(dest)@.wf(),
        forall|g: GroupId| #[trigger] ids@.contains(g) <==> old(dest)@.groups.contains_key(g),
    ensures
        forall|g: GroupId| #[trigger] gone@.contains(g) <==> group_gone(old(dest)@, source@, g),
        final(dest)@ == (DatabaseModel {
            deleted_objects: deletions_with_groups(old(dest)@, source@),
            ..old(dest)@
        }),
        final(dest)@.wf(),
        final(log)@ == old(log)@.plus(collected(ids@, |g: GroupId| group_removal_notes(old(dest)@, source@, g))),
{
    let ghost before = dest@;
    let ghost s = source@;
    let (gone, deletions) = find_gone_groups(dest, source, ids, log);
    let mut i: usize = 0;
    while i < gone.len()
        invariant
            i <= gone@.len(),
            dest@ == (DatabaseModel { deleted_objects: dest@.deleted_objects, ..before }),
            deletions@.len() == gone@.len(),
            forall|j: int|
                0 <= j < gone@.len() ==> deletions@[j] == s.deleted_objects[(#[trigger] gone@[j]).uuid],
            forall|u: Uuid| #[trigger]
                dest@.deleted_objects.contains_key(u) <==> before.deleted_objects.contains_key(u) || gone@.take(
                    i as int,
                ).contains(GroupId { uuid: u }),
            forall|u: Uuid| #[trigger]
                dest@.deleted_objects.contains_key(u) ==> dest@.deleted_objects[u] == if gone@.take(
                    i as int,
                ).contains(GroupId { uuid: u }) {
                    s.deleted_objects[u]
                } else {
                    before.deleted_objects[u]
                },
        decreases gone@.len() - i,
    {
        proof {
            assert(gone@.take(i + 1) =~= gone@.take(i as int).push(gone@[i as int]));
            lemma_push_contains(gone@.take(i as int), gone@[i as int]);
            assert forall|u: Uuid| u != gone@[i as int].uuid implies GroupId { uuid: u } != gone@[i as int] by {}
        }
        dest.record_deletion(gone[i].uuid, deletions[i]);
        i = i + 1;
    }
    proof {
        assert(gone@.take(gone@.len() as int) =~= gone@);
        assert(dest@.deleted_objects =~= deletions_with_groups(before, s));
        assert(dest@.tree() == before.tree());
    }
    gone
}

/// Removing a group that is not there changes nothing.
proof fn lemma_without_absent_group(db: DatabaseModel, top: GroupId)
    requires
        db.wf(),
        !db.groups.contains_key(top),
    ensures
        without_groups(db, set![top]) == db,
{
    let t = db.tree();
    let out = without_groups(db, set![top]);
    assert forall|g: GroupId| db.groups.contains_key(g) implies !within_any(t, g, set![top]) by {
        if within_any(t, g, set![top]) {
            let x = choose|x: GroupId| set![top].contains(x) && #[trigger] within(t, g, x);
            assert(x == top);
            let n = choose|n: nat| ancestor(t, g, n) == Some(top);
            assert(t.contains_key(g));
            lemma_ancestor_in_tree(t, db.root, g, n);
        }
    }
    assert(out.groups =~= db.groups);
    assert forall|e: EntryId| db.entries.contains_key(e) implies out.entries.contains_key(e) by {
        assert(db.groups.contains_key(db.entries[e].parent));
    }
    assert(out.entries =~= db.entries);
}

/// Removes groups with everything in them. The root stays.
fn remove_groups(dest: &mut Database, gone: &Vec<GroupId>)
    requires
        old(dest)@.wf(),
    ensures
        final(dest)@ == without_groups(
            old(dest)@,
            Set::new(|g: GroupId| gone@.contains(g) && g != old(dest)@.root),
        ),
        final(dest)@.wf(),
{
    let ghost before = dest@;
    let ghost mut tops: Set<GroupId> = Set::empty();
    let mut i: usize = 0;
    proof {
        lemma_without_no_groups(before);
    }
    while i < gone.len()
        invariant
            i <= gone@.len(),
            before.wf(),
            dest@.wf(),
            dest@.root == before.root,
            dest@ == without_groups(before, tops),
            forall|g: GroupId| #[trigger]
                tops.contains(g) <==> gone@.take(i as int).contains(g) && g != before.root,
        decreases gone@.len() - i,
    {
        let id = gone[i];
        proof {
            assert(gone@.take(i + 1) =~= gone@.take(i as int).push(id));
            lemma_push_contains(gone@.take(i as int), id);
            lemma_without_groups_twice(before, tops, id);
            if !dest@.groups.contains_key(id) {
                lemma_without_absent_group(dest@, id);
            }
        }
        let _ = dest.remove_group(id);
        proof {
            if id != before.root {
                tops = tops.insert(id);
            }
        }
        i = i + 1;
    }
    proof {
        assert(gone@.take(gone@.len() as int) =~= gone@);
        assert(tops =~= Set::new(|g: GroupId| gone@.contains(g) && g != before.root));
    }
}

/// Removes the groups that the source deleted, records and reports that, and keeps those in which
/// something lasts.
pub fn remove_deleted_groups(dest: &mut Database, source: &Database, log: &mut MergeLog) -> (walk: Ghost<Seq<GroupId>>)
    requires
        old(dest)@.wf(),
    ensures
        is_walk(walk@, old(dest)@.groups.dom()),
        final(dest)@ == without_groups(
            DatabaseModel { deleted_objects: deletions_with_groups(old(dest)@, source@), ..old(dest)@ },
            gone_groups(old(dest)@, source@),
        ),
        final(dest)@.wf(),
        final(log)@ == old(log)@.plus(
            collected(walk@, |g: GroupId| group_removal_notes(old(dest)@, source@, g)),
        ),
{
    let ghost before = dest@;
    let ids: Vec<GroupId> = dest.group_ids();
    let gone = record_group_deletions(dest, source, &ids, log);
    remove_groups(dest, &gone);
    proof {
        assert(Set::new(|g: GroupId| gone@.contains(g) && g != before.root) =~= gone_groups(before, source@));
        assert(ids@.to_set() =~= before.groups.dom());
    }
    Ghost(ids@)
}

} // verus!

//! Which groups a merge removes.
use vstd::prelude::*;

use crate::datetime::NaiveDateTime;
use crate::db::database::DatabaseModel;
use crate::db::tree::{
    ancestor, lemma_ancestor_add, lemma_ancestor_first, lemma_within_self, within,
};
use crate::ids::{EntryId, GroupId};
use crate::merge::arrivals::group_created;
use crate::merge::deletion_laws::{
    arranged, enlarged, group_changed_after_its_deletion_stays, group_deleted_there_is_removed,
    lemma_arranged, lemma_created_in_source, lemma_lasting_stays, new_entry_keeps_its_groups,
    removed_with_group,
};
use crate::merge::departures::{
    decided_at, entry_lasts, gone_groups, group_gone, group_lasts, lemma_kept_by_source,
    nothing_lasts, outdates_deletion,
};
use crate::merge::entries::{entry_created, entry_removed, entry_shared, spared};
use crate::merge::group_laws::lemma_kept_group;
use crate::merge::icon_imports::{aligned_source, lemma_adopted_alike, lemma_alike};
use crate::merge::outcome_laws::{changed_since, lemma_changed_since, lemma_shared_entry};
use crate::merge::{merged, MergeCourse};

verus! {

/// The source has nothing that stands in a group of the destination or below it.
#[verifier::opaque]
pub open spec fn nothing_shared_in(dest: DatabaseModel, source: DatabaseModel, g: GroupId) -> bool {
    &&& forall|x: GroupId| #[trigger]
        dest.groups.contains_key(x) && within(dest.tree(), x, g) ==> !source.groups.contains_key(x)
    &&& forall|e: EntryId| #[trigger]
        dest.entries.contains_key(e) && within(dest.tree(), dest.entries[e].parent, g)
            ==> !source.entries.contains_key(e)
}

/// Nothing that stands in a group of the destination or below it was changed after its own deletion,
/// or after the deletion of a group around it that stands there too, or of the group itself.
#[verifier::opaque]
pub open spec fn nothing_changed_in(dest: DatabaseModel, source: DatabaseModel, g: GroupId) -> bool {
    &&& forall|x: GroupId, y: GroupId|
        dest.groups.contains_key(x) && #[trigger] within(dest.tree(), x, y) && within(dest.tree(), y, g)
            && source.deleted_objects.contains_key(y.uuid) ==> !changed_since(
            dest.groups[x].times,
            source.deleted_objects[y.uuid],
        )
    &&& forall|e: EntryId, y: GroupId| #[trigger]
        dest.entries.contains_key(e) && #[trigger] within(dest.tree(), dest.entries[e].parent, y) && within(
            dest.tree(),
            y,
            g,
        ) && source.deleted_objects.contains_key(y.uuid) ==> !changed_since(
            dest.entries[e].times,
            source.deleted_objects[y.uuid],
        )
    &&& forall|e: EntryId| #[trigger]
        dest.entries.contains_key(e) && within(dest.tree(), dest.entries[e].parent, g)
            && source.deleted_objects.contains_key(e.uuid) ==> !changed_since(
            dest.entries[e].times,
            source.deleted_objects[e.uuid],
        )
}

/// A group in such a group is not in the source.
proof fn lemma_not_shared(dest: DatabaseModel, source: DatabaseModel, g: GroupId, x: GroupId)
    requires
        nothing_shared_in(dest, source, g),
        dest.groups.contains_key(x),
        within(dest.tree(), x, g),
    ensures
        !source.groups.contains_key(x),
{
    reveal(nothing_shared_in);
}

/// Below a group that only the destination has, and in which nothing stands that the source has too,
/// nothing moves.
proof fn lemma_chain(
    dest: DatabaseModel,
    source: DatabaseModel,
    now: NaiveDateTime,
    course: MergeCourse,
    after: DatabaseModel,
    g: GroupId,
    x: GroupId,
    n: nat,
)
    requires
        source.wf(),
        merged(dest, source, now, course, after),
        dest.groups.contains_key(g),
        nothing_shared_in(dest, source, g),
        arranged(source, now, course).groups.contains_key(x),
        ancestor(arranged(source, now, course).tree(), x, n) == Some(g),
    ensures
        dest.groups.contains_key(x),
        within(dest.tree(), x, g),
        !source.groups.contains_key(x),
        forall|m: nat|
            m <= n ==> #[trigger] ancestor(arranged(source, now, course).tree(), x, m) == ancestor(dest.tree(), x, m),
    decreases n,
{
    let t = arranged(source, now, course).tree();
    let u = dest.tree();
    let settled = arranged(source, now, course);
    lemma_arranged(dest, source, now, course, after);
    if n == 0 {
        lemma_within_self(u, g);
        lemma_not_shared(dest, source, g, g);
        assert forall|m: nat| m <= n implies #[trigger] ancestor(t, x, m) == ancestor(u, x, m) by {}
    } else {
        lemma_ancestor_first(t, x, n);
        assert(t.contains_key(x));
        let p = t[x]->0;
        assert(t[x] is Some && ancestor(t, p, (n - 1) as nat) == Some(g));
        assert(settled.groups.contains_key(p)) by {
            if n == 1 {
                assert(p == g);
            } else {
                lemma_ancestor_first(t, p, (n - 1) as nat);
            }
        }
        lemma_chain(dest, source, now, course, after, g, p, (n - 1) as nat);
        assert(!source.groups.contains_key(p));
        assert(dest.groups.contains_key(x) || source.groups.contains_key(x)) by {
            if !dest.groups.contains_key(x) {
                assert(group_created(dest, source, x));
                lemma_created_in_source(dest, source, x);
            }
        }
        lemma_kept_group(dest, source, now, course, after, x);
        if source.groups.contains_key(x) {
            let sp = source.groups[x].parent;
            if sp is Some {
                assert(source.tree().contains_key(x) && source.tree()[x] == sp);
                assert(source.groups.contains_key(sp->0));
            }
            assert(sp != Some(p));
        }
        assert(dest.groups.contains_key(x) && dest.groups[x].parent == Some(p));
        assert(u.contains_key(x) && u[x] == Some(p));
        let k = choose|k: nat| ancestor(u, p, k) == Some(g);
        lemma_ancestor_add(u, x, 1, k);
        assert(ancestor(u, x, 0) == Some(x));
        assert(ancestor(u, x, 1) == Some(p));
        assert(ancestor(u, x, 1 + k) == Some(g));
        assert(within(u, x, g));
        lemma_not_shared(dest, source, g, x);
        assert forall|m: nat| m <= n implies #[trigger] ancestor(t, x, m) == ancestor(u, x, m) by {
            if m > 0 {
                lemma_ancestor_add(t, x, 1, (m - 1) as nat);
                lemma_ancestor_add(u, x, 1, (m - 1) as nat);
                assert(ancestor(t, x, 0) == Some(x) && ancestor(u, x, 0) == Some(x));
                assert(ancestor(t, x, 1) == Some(p) && ancestor(u, x, 1) == Some(p));
                assert(ancestor(t, p, (m - 1) as nat) == ancestor(u, p, (m - 1) as nat));
            }
        }
    }
}

/// What stands in such a group does not outlast the deletions on record.
proof fn lemma_nothing_outdates(
    dest: DatabaseModel,
    source: DatabaseModel,
    now: NaiveDateTime,
    course: MergeCourse,
    after: DatabaseModel,
    g: GroupId,
    x: GroupId,
    change: Option<NaiveDateTime>,
)
    requires
        source.wf(),
        merged(dest, source, now, course, after),
        dest.groups.contains_key(g),
        source.deleted_objects.contains_key(g.uuid),
        nothing_shared_in(dest, source, g),
        arranged(source, now, course).groups.contains_key(x),
        within(arranged(source, now, course).tree(), x, g),
        forall|y: GroupId| #[trigger]
            within(dest.tree(), x, y) && within(dest.tree(), y, g) && source.deleted_objects.contains_key(y.uuid)
                ==> !spared(change, source.deleted_objects[y.uuid]),
    ensures
        !outdates_deletion(arranged(source, now, course).tree(), source.deleted_objects, x, change),
{
    let t = arranged(source, now, course).tree();
    let u = dest.tree();
    let deleted = source.deleted_objects;
    let n = choose|n: nat| ancestor(t, x, n) == Some(g);
    lemma_chain(dest, source, now, course, after, g, x, n);
    if outdates_deletion(t, deleted, x, change) {
        let k = choose|k: nat| #[trigger]
            decided_at(t, deleted, x, k) && spared(change, deleted[ancestor(t, x, k)->0.uuid]);
        if k > n {
            assert(!deleted.contains_key(ancestor(t, x, n)->0.uuid));
        }
        let y = ancestor(t, x, k)->0;
        assert(ancestor(u, x, k) == Some(y));
        lemma_ancestor_add(u, x, k, (n - k) as nat);
        assert(ancestor(u, x, n) == Some(g));
        assert(ancestor(u, y, (n - k) as nat) == Some(g));
        assert(within(u, x, y) && within(u, y, g));
        assert(deleted.contains_key(y.uuid));
    }
}

/// A group in such a group does not last.
proof fn lemma_group_does_not_last(
    dest: DatabaseModel,
    source: DatabaseModel,
    now: NaiveDateTime,
    course: MergeCourse,
    after: DatabaseModel,
    g: GroupId,
    x: GroupId,
)
    requires
        source.wf(),
        merged(dest, source, now, course, after),
        dest.groups.contains_key(g),
        source.deleted_objects.contains_key(g.uuid),
        nothing_shared_in(dest, source, g),
        nothing_changed_in(dest, source, g),
        arranged(source, now, course).groups.contains_key(x),
        within(arranged(source, now, course).tree(), x, g),
    ensures
        !group_lasts(arranged(source, now, course), aligned_source(course.base, source, course.imports), x),
{
    let settled = arranged(source, now, course);
    let t = settled.tree();
    let n = choose|n: nat| ancestor(t, x, n) == Some(g);
    lemma_chain(dest, source, now, course, after, g, x, n);
    lemma_kept_group(dest, source, now, course, after, x);
    let change = dest.groups[x].times.spec_last_change();
    assert forall|y: GroupId| #[trigger]
        within(dest.tree(), x, y) && within(dest.tree(), y, g) && source.deleted_objects.contains_key(
            y.uuid,
        ) implies !spared(change, source.deleted_objects[y.uuid]) by {
        reveal(nothing_changed_in);
        lemma_changed_since(dest.groups[x].times, source.deleted_objects[y.uuid]);
    }
    lemma_nothing_outdates(dest, source, now, course, after, g, x, change);
    assert(settled.groups[x].times == dest.groups[x].times);
}

/// An entry in such a group does not last.
proof fn lemma_entry_does_not_last(
    dest: DatabaseModel,
    source: DatabaseModel,
    now: NaiveDateTime,
    course: MergeCourse,
    after: DatabaseModel,
    g: GroupId,
    e: EntryId,
)
    requires
        source.wf(),
        merged(dest, source, now, course, after),
        dest.groups.contains_key(g),
        source.deleted_objects.contains_key(g.uuid),
        nothing_shared_in(dest, source, g),
        nothing_changed_in(dest, source, g),
        arranged(source, now, course).entries.contains_key(e),
        within(arranged(source, now, course).tree(), arranged(source, now, course).entries[e].parent, g),
    ensures
        !entry_lasts(arranged(source, now, course), aligned_source(course.base, source, course.imports), e),
{
    let settled = arranged(source, now, course);
    let p = settled.entries[e].parent;
    lemma_settled_parent(dest, source, now, course, after, g, e);
    if source.deleted_objects.contains_key(e.uuid) {
        reveal(nothing_changed_in);
        lemma_changed_since(dest.entries[e].times, source.deleted_objects[e.uuid]);
        assert(entry_removed(dest, source, e));
    }
    let change = dest.entries[e].times.spec_last_change();
    assert forall|y: GroupId| #[trigger]
        within(dest.tree(), p, y) && within(dest.tree(), y, g) && source.deleted_objects.contains_key(
            y.uuid,
        ) implies !spared(change, source.deleted_objects[y.uuid]) by {
        reveal(nothing_changed_in);
        lemma_changed_since(dest.entries[e].times, source.deleted_objects[y.uuid]);
    }
    lemma_nothing_outdates(dest, source, now, course, after, g, p, change);
}

/// A group that the source deleted is removed, with a record of its deletion, if the source has
/// nothing that stands in it, and nothing in it was changed after its own deletion or after that of a
/// group around it.
pub proof fn deleted_group_is_removed(
    dest: DatabaseModel,
    source: DatabaseModel,
    now: NaiveDateTime,
    course: MergeCourse,
    after: DatabaseModel,
    g: GroupId,
)
    requires
        source.wf(),
        merged(dest, source, now, course, after),
        dest.groups.contains_key(g),
        g != dest.root,
        source.deleted_objects.contains_key(g.uuid),
        nothing_shared_in(dest, source, g),
        nothing_changed_in(dest, source, g),
    ensures
        !after.groups.contains_key(g),
        after.deleted_objects.contains_key(g.uuid),
        after.deleted_objects[g.uuid] == source.deleted_objects[g.uuid],
{
    let aligned = aligned_source(course.base, source, course.imports);
    let settled = arranged(source, now, course);
    let t = settled.tree();
    lemma_arranged(dest, source, now, course, after);
    assert(nothing_lasts(settled, aligned, g)) by {
        reveal(nothing_lasts);
        assert forall|x: GroupId| #[trigger] settled.groups.contains_key(x) && within(t, x, g) implies !group_lasts(
            settled,
            aligned,
            x,
        ) by {
            lemma_group_does_not_last(dest, source, now, course, after, g, x);
        }
        assert forall|e: EntryId| #[trigger] settled.entries.contains_key(e) && within(
            t,
            settled.entries[e].parent,
            g,
        ) implies !entry_lasts(settled, aligned, e) by {
            lemma_entry_does_not_last(dest, source, now, course, after, g, e);
        }
    }
    assert(settled.root == dest.root);
    assert(settled.groups.contains_key(g));
    assert(group_gone(settled, aligned, g));
    group_deleted_there_is_removed(dest, source, now, course, after, g);
}

/// An entry that stands below such a group once entries are merged stood there before, and the source
/// does not have it.
proof fn lemma_settled_parent(
    dest: DatabaseModel,
    source: DatabaseModel,
    now: NaiveDateTime,
    course: MergeCourse,
    after: DatabaseModel,
    g: GroupId,
    e: EntryId,
)
    requires
        source.wf(),
        merged(dest, source, now, course, after),
        dest.groups.contains_key(g),
        nothing_shared_in(dest, source, g),
        arranged(source, now, course).entries.contains_key(e),
        within(arranged(source, now, course).tree(), arranged(source, now, course).entries[e].parent, g),
    ensures
        dest.entries.contains_key(e),
        !source.entries.contains_key(e),
        !entry_removed(dest, source, e),
        arranged(source, now, course).entries[e].parent == dest.entries[e].parent,
        arranged(source, now, course).entries[e].times == dest.entries[e].times,
        arranged(source, now, course).groups.contains_key(dest.entries[e].parent),
        within(dest.tree(), dest.entries[e].parent, g),
{
    let aligned = aligned_source(course.base, source, course.imports);
    let settled = arranged(source, now, course);
    let grown = enlarged(source, course);
    let t = settled.tree();
    let p = settled.entries[e].parent;
    lemma_adopted_alike(dest, source, course.translation, course.base);
    lemma_alike(course.base, source, course.imports, course.start);
    lemma_arranged(dest, source, now, course, after);
    let n = choose|n: nat| ancestor(t, p, n) == Some(g);
    assert(settled.groups.contains_key(p)) by {
        if n > 0 {
            lemma_ancestor_first(t, p, n);
        } else {
            assert(p == g);
        }
    }
    lemma_chain(dest, source, now, course, after, g, p, n);
    reveal(nothing_shared_in);
    assert(course.base.entries.dom().contains(e) == dest.entries.dom().contains(e));
    if source.entries.contains_key(e) {
        assert(source.groups.contains_key(source.entries[e].parent));
        assert(aligned.entries.contains_key(e));
        let copy = course.groups.entries.copies[e];
        if dest.entries.contains_key(e) {
            assert(entry_shared(grown, aligned, e));
            lemma_shared_entry(dest, source, now, course, after, e);
        } else {
            assert(entry_created(grown, aligned, e));
            assert(settled.entries[e] == copy);
            assert(copy.with_history(None).parent == aligned.entries[e].with_history(None).parent);
        }
        assert(p == dest.entries[e].parent || p == source.entries[e].parent);
    }
}

/// A group that only the destination has, and that was changed after the source deleted it, stays.
pub proof fn changed_group_is_kept(
    dest: DatabaseModel,
    source: DatabaseModel,
    now: NaiveDateTime,
    course: MergeCourse,
    after: DatabaseModel,
    g: GroupId,
)
    requires
        source.wf(),
        merged(dest, source, now, course, after),
        dest.groups.contains_key(g),
        !source.groups.contains_key(g),
        source.deleted_objects.contains_key(g.uuid),
        changed_since(dest.groups[g].times, source.deleted_objects[g.uuid]),
    ensures
        after.groups.contains_key(g),
{
    let settled = arranged(source, now, course);
    lemma_arranged(dest, source, now, course, after);
    assert(settled.groups.contains_key(g));
    lemma_kept_group(dest, source, now, course, after, g);
    lemma_changed_since(dest.groups[g].times, source.deleted_objects[g.uuid]);
    group_changed_after_its_deletion_stays(dest, source, now, course, after, g);
}

/// A group in which an entry stands that only the destination has, and that was changed after the
/// source deleted the group, stays with it.
pub proof fn group_of_a_changed_entry_is_kept(
    dest: DatabaseModel,
    source: DatabaseModel,
    now: NaiveDateTime,
    course: MergeCourse,
    after: DatabaseModel,
    e: EntryId,
)
    requires
        dest.wf(),
        merged(dest, source, now, course, after),
        dest.entries.contains_key(e),
        !source.entries.contains_key(e),
        !source.deleted_objects.contains_key(e.uuid),
        source.deleted_objects.contains_key(dest.entries[e].parent.uuid),
        changed_since(dest.entries[e].times, source.deleted_objects[dest.entries[e].parent.uuid]),
    ensures
        after.groups.contains_key(dest.entries[e].parent),
        after.entries.contains_key(e),
{
    lemma_changed_since(dest.entries[e].times, source.deleted_objects[dest.entries[e].parent.uuid]);
    new_entry_keeps_its_groups(dest, source, now, course, after, e);
}

/// A group stays if the source has no deletion on record, neither of it nor of a group around it.
pub proof fn undeleted_group_is_kept(
    dest: DatabaseModel,
    source: DatabaseModel,
    now: NaiveDateTime,
    course: MergeCourse,
    after: DatabaseModel,
    g: GroupId,
)
    requires
        source.wf(),
        merged(dest, source, now, course, after),
        dest.groups.contains_key(g),
        forall|top: GroupId| #[trigger]
            dest.groups.contains_key(top) ==> !source.deleted_objects.contains_key(top.uuid),
    ensures
        after.groups.contains_key(g),
{
    let settled = arranged(source, now, course);
    let aligned = aligned_source(course.base, source, course.imports);
    lemma_arranged(dest, source, now, course, after);
    assert(settled.groups.contains_key(g));
    if !after.groups.contains_key(g) {
        assert(removed_with_group(source, now, course, g));
        let top = choose|top: GroupId|
            gone_groups(settled, aligned).contains(top) && #[trigger] within(settled.tree(), g, top);
        assert(group_gone(settled, aligned, top));
        assert(settled.groups.contains_key(top));
        if !dest.groups.contains_key(top) {
            assert(group_created(dest, source, top));
            lemma_created_in_source(dest, source, top);
            lemma_kept_group(dest, source, now, course, after, top);
            lemma_kept_by_source(settled, aligned, top);
        }
    }
}

/// A group that only the destination has, and that the source did not delete, stays if it was changed
/// after the source deleted the group in which it stands.
pub proof fn changed_subgroup_is_kept(
    dest: DatabaseModel,
    source: DatabaseModel,
    now: NaiveDateTime,
    course: MergeCourse,
    after: DatabaseModel,
    g: GroupId,
    top: GroupId,
)
    requires
        source.wf(),
        merged(dest, source, now, course, after),
        dest.groups.contains_key(g),
        !source.groups.contains_key(g),
        dest.groups[g].parent == Some(top),
        !source.deleted_objects.contains_key(g.uuid),
        source.deleted_objects.contains_key(top.uuid),
        changed_since(dest.groups[g].times, source.deleted_objects[top.uuid]),
    ensures
        after.groups.contains_key(g),
{
    let settled = arranged(source, now, course);
    let aligned = aligned_source(course.base, source, course.imports);
    let t = settled.tree();
    lemma_arranged(dest, source, now, course, after);
    assert(settled.groups.contains_key(g));
    lemma_kept_group(dest, source, now, course, after, g);
    lemma_changed_since(dest.groups[g].times, source.deleted_objects[top.uuid]);
    assert(t.contains_key(g) && t[g] == Some(top));
    assert(ancestor(t, g, 0) == Some(g));
    assert(ancestor(t, g, 1) == Some(top));
    assert(decided_at(t, source.deleted_objects, g, 1)) by {
        assert forall|m: nat| m < 1 implies !source.deleted_objects.contains_key(
            (#[trigger] ancestor(t, g, m))->0.uuid,
        ) by {
            assert(m == 0);
        }
    }
    assert(group_lasts(settled, aligned, g));
    lemma_lasting_stays(dest, source, now, course, after, g, EntryId { uuid: g.uuid });
}

} // verus!

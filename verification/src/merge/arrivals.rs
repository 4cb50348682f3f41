//! The groups that a merge adds to the destination.
use vstd::prelude::*;

use crate::datetime::NaiveDateTime;
use crate::db::database::{lemma_push_contains, Database, DatabaseModel};
use crate::db::group::Group;
use crate::db::tree::{
    ancestor, lemma_acyclic, lemma_add_leaf, lemma_ancestor_add, lemma_ancestor_first, Tree,
};
use crate::ids::{EntryId, GroupId};
use crate::merge::log::{collected, group_log, LogModel, MergeEventTarget, MergeEventType, MergeLog};

verus! {

broadcast use group_log;

/// The group itself, one of its entries or one of the groups directly below it was last changed at
/// a moment.
pub open spec fn changed_at(db: DatabaseModel, g: GroupId, t: NaiveDateTime) -> bool {
    ||| db.groups[g].times.spec_last_change() == Some(t)
    ||| exists|e: EntryId|
        {
            &&& #[trigger] db.entries.contains_key(e)
            &&& db.entries[e].parent == g
            &&& db.entries[e].times.spec_last_change() == Some(t)
        }
    ||| exists|c: GroupId|
        {
            &&& #[trigger] db.groups.contains_key(c)
            &&& db.groups[c].parent == Some(g)
            &&& db.groups[c].times.spec_last_change() == Some(t)
        }
}

/// The last moment at which a group, one of its entries or one of the groups directly below it was
/// changed, if any is known.
pub open spec fn is_last_update(db: DatabaseModel, g: GroupId, last: Option<NaiveDateTime>) -> bool {
    match last {
        Some(t) => changed_at(db, g, t) && forall|u: NaiveDateTime| #[trigger]
            changed_at(db, g, u) ==> !u.is_after(t),
        None => forall|u: NaiveDateTime| !#[trigger] changed_at(db, g, u),
    }
}

/// The later of two moments; one that is unknown is earlier than any other.
fn latest(a: Option<NaiveDateTime>, b: Option<NaiveDateTime>) -> (t: Option<NaiveDateTime>)
    ensures
        t == a || t == b,
        a is Some ==> t is Some && !a->0.is_after(t->0),
        b is Some ==> t is Some && !b->0.is_after(t->0),
{
    match (a, b) {
        (Some(x), Some(y)) => if y.after(&x) {
            b
        } else {
            a
        },
        (Some(_), None) => a,
        (None, _) => b,
    }
}

/// When a group was last changed (modified or moved), its entries and the groups directly below it
/// considered too.
pub fn get_last_update(db: &Database, group: &Group) -> (last: Option<NaiveDateTime>)
    requires
        db@.groups.contains_key(group.id),
        db@.groups[group.id] == group.deep_view(),
    ensures
        is_last_update(db@, group.id, last),
{
    let id: GroupId = group.id;
    let ghost d = db@;
    let mut last: Option<NaiveDateTime> = group.times.last_change();
    let entries: Vec<EntryId> = db.entry_ids();
    let mut i: usize = 0;
    while i < entries.len()
        invariant
            i <= entries@.len(),
            d == db@,
            id == group.id,
            d.groups[id] == group.deep_view(),
            forall|e: EntryId| #[trigger] entries@.contains(e) <==> d.entries.contains_key(e),
            last is Some ==> changed_at(d, id, last->0),
            group.times.spec_last_change() is Some ==> last is Some
                && !group.times.spec_last_change()->0.is_after(last->0),
            forall|j: int|
                0 <= j < i && d.entries[#[trigger] entries@[j]].parent == id
                    && d.entries[entries@[j]].times.spec_last_change() is Some ==> last is Some
                    && !d.entries[entries@[j]].times.spec_last_change()->0.is_after(last->0),
        decreases entries@.len() - i,
    {
        assert(entries@.contains(entries@[i as int]));
        match db.entry(entries[i]) {
            Some(entry) => {
                if entry.parent == id {
                    last = latest(last, entry.times.last_change());
                }
            },
            None => {},
        }
        i = i + 1;
    }
    let groups: Vec<GroupId> = db.group_ids();
    let mut i: usize = 0;
    while i < groups.len()
        invariant
            i <= groups@.len(),
            d == db@,
            id == group.id,
            d.groups[id] == group.deep_view(),
            forall|g: GroupId| #[trigger] groups@.contains(g) <==> d.groups.contains_key(g),
            last is Some ==> changed_at(d, id, last->0),
            group.times.spec_last_change() is Some ==> last is Some
                && !group.times.spec_last_change()->0.is_after(last->0),
            forall|j: int|
                0 <= j < entries@.len() && d.entries[#[trigger] entries@[j]].parent == id
                    && d.entries[entries@[j]].times.spec_last_change() is Some ==> last is Some
                    && !d.entries[entries@[j]].times.spec_last_change()->0.is_after(last->0),
            forall|j: int|
                0 <= j < i && d.groups[#[trigger] groups@[j]].parent == Some(id)
                    && d.groups[groups@[j]].times.spec_last_change() is Some ==> last is Some
                    && !d.groups[groups@[j]].times.spec_last_change()->0.is_after(last->0),
        decreases groups@.len() - i,
    {
        assert(groups@.contains(groups@[i as int]));
        match db.group(groups[i]) {
            Some(child) => {
                let is_child = match child.parent {
                    Some(parent) => parent == id,
                    None => false,
                };
                if is_child {
                    last = latest(last, child.times.last_change());
                }
            },
            None => {},
        }
        i = i + 1;
    }
    proof {
        assert forall|u: NaiveDateTime| #[trigger] changed_at(d, id, u) implies last is Some && !u.is_after(last->0) by {
            if exists|e: EntryId|
                {
                    &&& #[trigger] d.entries.contains_key(e)
                    &&& d.entries[e].parent == id
                    &&& d.entries[e].times.spec_last_change() == Some(u)
                } {
                let e = choose|e: EntryId|
                    {
                        &&& #[trigger] d.entries.contains_key(e)
                        &&& d.entries[e].parent == id
                        &&& d.entries[e].times.spec_last_change() == Some(u)
                    };
                assert(entries@.contains(e));
                let j = choose|j: int| 0 <= j < entries@.len() && entries@[j] == e;
                assert(d.entries[entries@[j]].parent == id);
            }
            if exists|c: GroupId|
                {
                    &&& #[trigger] d.groups.contains_key(c)
                    &&& d.groups[c].parent == Some(id)
                    &&& d.groups[c].times.spec_last_change() == Some(u)
                } {
                let c = choose|c: GroupId|
                    {
                        &&& #[trigger] d.groups.contains_key(c)
                        &&& d.groups[c].parent == Some(id)
                        &&& d.groups[c].times.spec_last_change() == Some(u)
                    };
                assert(groups@.contains(c));
                let j = choose|j: int| 0 <= j < groups@.len() && groups@[j] == c;
                assert(d.groups[groups@[j]].parent == Some(id));
            }
        }
    }
    last
}

/// The group is only in the source, and the destination did not delete it for good.
pub open spec fn group_wanted(dest: DatabaseModel, source: DatabaseModel, g: GroupId) -> bool {
    &&& source.groups.contains_key(g)
    &&& !dest.groups.contains_key(g)
    &&& dest.deleted_objects.contains_key(g.uuid) ==> exists|t: NaiveDateTime| #[trigger]
        changed_at(source, g, t) && (dest.deleted_objects[g.uuid] is None || t.is_after(
            dest.deleted_objects[g.uuid]->0,
        ))
}

/// Climbing `n` steps from a group leads to `g`, and nothing on the way, `g` included, is known.
pub open spec fn climbs(t: Tree, known: Set<GroupId>, from: GroupId, g: GroupId, n: nat) -> bool {
    &&& ancestor(t, from, n) == Some(g)
    &&& forall|k: nat| k <= n ==> !known.contains((#[trigger] ancestor(t, from, k))->0)
}

/// The group is added to the destination: it is wanted itself, or it is missing between a wanted
/// group and the groups that the destination has.
pub open spec fn group_created(dest: DatabaseModel, source: DatabaseModel, g: GroupId) -> bool {
    exists|from: GroupId, n: nat|
        group_wanted(dest, source, from) && #[trigger] climbs(source.tree(), dest.groups.dom(), from, g, n)
}

/// The destination with the groups that are added to it.
pub open spec fn with_new_groups(dest: DatabaseModel, source: DatabaseModel) -> DatabaseModel {
    DatabaseModel {
        groups: Map::new(
            |g: GroupId| dest.groups.contains_key(g) || group_created(dest, source, g),
            |g: GroupId|
                if dest.groups.contains_key(g) {
                    dest.groups[g]
                } else {
                    source.groups[g]
                },
        ),
        ..dest
    }
}

/// Every group of the walk has its parent in the table or earlier in the walk.
pub open spec fn parents_first(walk: Seq<GroupId>, known: Set<GroupId>, source: DatabaseModel) -> bool {
    forall|i: int|
        0 <= i < walk.len() ==> {
            let parent = source.groups[#[trigger] walk[i]].parent;
            parent is Some && (known.contains(parent->0) || walk.take(i).contains(parent->0))
        }
}

/// An order in which the new groups can be added.
pub open spec fn creation_walk(walk: Seq<GroupId>, dest: DatabaseModel, source: DatabaseModel) -> bool {
    &&& walk.no_duplicates()
    &&& forall|g: GroupId| #[trigger] walk.contains(g) <==> group_created(dest, source, g)
    &&& parents_first(walk, dest.groups.dom(), source)
}

/// What is reported about a group that is added.
pub open spec fn group_creation_notes(g: GroupId) -> LogModel {
    LogModel::event(MergeEventTarget::Group(g), MergeEventType::Created)
}

/// The groups that are wanted for their own sake.
fn wanted_groups(dest: &Database, source: &Database) -> (wanted: Vec<GroupId>)
    requires
        source@.wf(),
    ensures
        forall|g: GroupId| #[trigger] wanted@.contains(g) <==> group_wanted(dest@, source@, g),
{
    let ids: Vec<GroupId> = source.group_ids();
    let ghost d = dest@;
    let ghost s = source@;
    let mut wanted: Vec<GroupId> = Vec::new();
    let mut i: usize = 0;
    while i < ids.len()
        invariant
            i <= ids@.len(),
            d == dest@,
            s == source@,
            s.wf(),
            forall|g: GroupId| #[trigger] ids@.contains(g) <==> s.groups.contains_key(g),
            forall|g: GroupId| #[trigger]
                wanted@.contains(g) <==> ids@.take(i as int).contains(g) && group_wanted(d, s, g),
        decreases ids@.len() - i,
    {
        let id = ids[i];
        proof {
            assert(ids@.contains(ids@[i as int]));
            assert(ids@.take(i + 1) =~= ids@.take(i as int).push(id));
            lemma_push_contains(ids@.take(i as int), id);
            lemma_push_contains(wanted@, id);
        }
        if dest.group(id).is_none() {
            let is_wanted = match dest.deletion(id.uuid) {
                None => true,
                Some(deletion) => match source.group(id) {
                    Some(group) => {
                        assert(s.groups[id].id == id);
                        let change = get_last_update(source, group);
                        match (deletion, change) {
                            (Some(deletion), Some(change)) => change.after(&deletion),
                            (None, Some(_)) => true,
                            (_, None) => false,
                        }
                    },
                    None => false,
                },
            };
            assert(is_wanted == group_wanted(d, s, id));
            if is_wanted {
                wanted.push(id);
            }
        }
        i = i + 1;
    }
    assert(ids@.take(ids@.len() as int) =~= ids@);
    wanted
}

/// A climb passes through the tree.
proof fn lemma_climb_defined(t: Tree, from: GroupId, n: nat, k: nat)
    requires
        ancestor(t, from, n) is Some,
        k <= n,
    ensures
        ancestor(t, from, k) is Some,
{
    lemma_ancestor_add(t, from, k, (n - k) as nat);
}

/// Where a second climb meets what a first climb has passed, it goes on as the first one does.
proof fn lemma_climbs_join(
    t: Tree,
    known: Set<GroupId>,
    first: GroupId,
    m: nat,
    second: GroupId,
    k: nat,
    n: nat,
    meeting: GroupId,
    g: GroupId,
)
    requires
        climbs(t, known, first, meeting, m),
        climbs(t, known, second, g, n),
        k <= n,
        ancestor(t, second, k) == Some(meeting),
    ensures
        climbs(t, known, first, g, (m + (n - k)) as nat),
{
    let total = (m + (n - k)) as nat;
    lemma_ancestor_add(t, first, m, (n - k) as nat);
    lemma_ancestor_add(t, second, k, (n - k) as nat);
    assert forall|q: nat| q <= total implies !known.contains((#[trigger] ancestor(t, first, q))->0) by {
        if q > m {
            let r = (q - m) as nat;
            lemma_ancestor_add(t, first, m, r);
            lemma_ancestor_add(t, second, k, r);
            assert(ancestor(t, first, q) == ancestor(t, second, k + r));
        }
    }
}

/// Adds a group of the source with all groups that are missing above it.
fn add_with_parents(dest: &mut Database, source: &Database, from: GroupId, log: &mut MergeLog) -> (walk: Ghost<
    Seq<GroupId>,
>)
    requires
        old(dest)@.wf(),
        source@.wf(),
        source@.groups.contains_key(from),
        forall|n: nat| !#[trigger] climbs(source@.tree(), old(dest)@.groups.dom(), from, source@.root, n),
    ensures
        final(dest)@.wf(),
        final(dest)@ == (DatabaseModel { groups: final(dest)@.groups, ..old(dest)@ }),
        forall|g: GroupId| #[trigger]
            final(dest)@.groups.contains_key(g) <==> old(dest)@.groups.contains_key(g) || exists|n: nat|
                climbs(source@.tree(), old(dest)@.groups.dom(), from, g, n),
        forall|g: GroupId| #[trigger]
            final(dest)@.groups.contains_key(g) ==> final(dest)@.groups[g] == if old(dest)@.groups.contains_key(g) {
                old(dest)@.groups[g]
            } else {
                source@.groups[g]
            },
        walk@.no_duplicates(),
        forall|g: GroupId| #[trigger]
            walk@.contains(g) <==> final(dest)@.groups.contains_key(g) && !old(dest)@.groups.contains_key(g),
        parents_first(walk@, old(dest)@.groups.dom(), source@),
        final(log)@ == old(log)@.plus(collected(walk@, |g: GroupId| group_creation_notes(g))),
{
    let ghost before = dest@;
    let ghost known = dest@.groups.dom();
    let ghost s = source@;
    let ghost t = source@.tree();
    let mut chain: Vec<GroupId> = Vec::new();
    let mut at: GroupId = from;
    proof {
        assert(t.contains_key(from));
    }
    let ghost mut depth: nat = choose|n: nat| ancestor(t, from, n) == Some(s.root);
    while dest.group(at).is_none()
        invariant
            dest@ == before,
            s == source@,
            s.wf(),
            t == s.tree(),
            known == before.groups.dom(),
            t.contains_key(from),
            t.contains_key(at),
            ancestor(t, at, depth) == Some(s.root),
            ancestor(t, from, chain@.len()) == Some(at),
            forall|k: nat| k < chain@.len() ==> #[trigger] ancestor(t, from, k) == Some(chain@[k as int]),
            forall|k: int| 0 <= k < chain@.len() ==> !known.contains(#[trigger] chain@[k]),
            forall|k: int| 0 <= k < chain@.len() ==> s.groups.contains_key(#[trigger] chain@[k]),
            forall|n: nat| !#[trigger] climbs(t, known, from, s.root, n),
        ensures
            known.contains(at),
        decreases depth,
    {
        let ghost n = chain@.len();
        let ghost passed = chain@;
        proof {
            assert(climbs(t, known, from, at, n)) by {
                assert forall|k: nat| k <= n implies !known.contains((#[trigger] ancestor(t, from, k))->0) by {
                    if k < n {
                        assert(!known.contains(passed[k as int]));
                    }
                }
            }
            assert(at != s.root);
            if depth > 0 {
                lemma_ancestor_first(t, at, depth);
            }
        }
        chain.push(at);
        match source.group(at) {
            Some(group) => match group.parent {
                Some(parent) => {
                    proof {
                        assert(t[at] == Some(parent));
                        depth = (depth - 1) as nat;
                        assert forall|k: nat| k < chain@.len() implies #[trigger] ancestor(t, from, k) == Some(
                            chain@[k as int],
                        ) by {
                            if k < n {
                                assert(ancestor(t, from, k) == Some(passed[k as int]));
                            }
                        }
                        assert forall|k: int| 0 <= k < chain@.len() implies !known.contains(#[trigger] chain@[k]) by {
                            if k < n {
                                assert(!known.contains(passed[k]));
                            }
                        }
                        assert forall|k: int| 0 <= k < chain@.len() implies s.groups.contains_key(
                            #[trigger] chain@[k],
                        ) by {
                            if k < n {
                                assert(s.groups.contains_key(passed[k]));
                            }
                        }
                    }
                    at = parent;
                },
                None => {},
            },
            None => {},
        }
    }
    let ghost all = chain@;
    let ghost n = chain@.len();
    proof {
        assert forall|i: int, j: int| 0 <= i < j < n implies all[i] != all[j] by {
            assert(ancestor(t, from, i as nat) == Some(all[i]));
            assert(ancestor(t, from, j as nat) == Some(all[j]));
            lemma_ancestor_add(t, from, i as nat, (j - i) as nat);
            lemma_acyclic(t, s.root, all[i], (j - i) as nat);
        }
    }
    let ghost mut walk: Seq<GroupId> = Seq::empty();
    let ghost notes = |g: GroupId| group_creation_notes(g);
    while chain.len() > 0
        invariant
            s == source@,
            s.wf(),
            t == s.tree(),
            known == before.groups.dom(),
            n == all.len(),
            chain@ =~= all.take(chain@.len() as int),
            chain@.len() <= n,
            forall|i: int, j: int| 0 <= i < j < n ==> all[i] != all[j],
            forall|k: int| 0 <= k < n ==> !known.contains(#[trigger] all[k]),
            forall|k: int| 0 <= k < n ==> s.groups.contains_key(#[trigger] all[k]),
            forall|k: nat| k < n ==> #[trigger] ancestor(t, from, k) == Some(all[k as int]),
            ancestor(t, from, n) == Some(at),
            known.contains(at),
            dest@.wf(),
            dest@ == (DatabaseModel { groups: dest@.groups, ..before }),
            walk.len() == n - chain@.len(),
            forall|i: int| 0 <= i < walk.len() ==> #[trigger] walk[i] == all[n - 1 - i],
            forall|g: GroupId| #[trigger] dest@.groups.contains_key(g) <==> known.contains(g) || walk.contains(g),
            forall|g: GroupId| #[trigger]
                dest@.groups.contains_key(g) ==> dest@.groups[g] == if known.contains(g) {
                    before.groups[g]
                } else {
                    s.groups[g]
                },
            parents_first(walk, known, s),
            notes == (|g: GroupId| group_creation_notes(g)),
            log@ == old(log)@.plus(collected(walk, notes)),
        decreases chain@.len(),
    {
        let ghost m = chain@.len();
        let ghost old_walk = walk;
        let ghost mid = dest@;
        match chain.pop() {
            Some(id) => {
                assert(id == all[m - 1]);
                match source.group(id) {
                    Some(group) => {
                        let group: Group = group.clone();
                        proof {
                            assert(s.groups.contains_key(all[m - 1]));
                            assert(group.deep_view() == s.groups[id]);
                            assert(s.groups[id].id == id);
                            // The parent is what comes next in the climb.
                            assert(ancestor(t, from, (m - 1) as nat) == Some(id));
                            assert(ancestor(t, from, m) == t[id]);
                            let parent = s.groups[id].parent;
                            assert(parent is Some);
                            if m < n {
                                assert(ancestor(t, from, m) == Some(all[m as int]));
                                assert(old_walk[n - 1 - m] == all[m as int]);
                                assert(old_walk.contains(parent->0));
                            } else {
                                assert(parent->0 == at);
                            }
                            if old_walk.contains(id) {
                                let j = choose|j: int| 0 <= j < old_walk.len() && old_walk[j] == id;
                                assert(all[m - 1] != all[n - 1 - j]);
                            }
                            assert(!known.contains(all[m - 1]));
                            assert(!mid.groups.contains_key(id));
                            lemma_add_leaf(mid.tree(), mid.root, id, parent->0);
                            walk = walk.push(id);
                            lemma_push_contains(old_walk, id);
                            assert(walk.drop_last() =~= old_walk);
                            assert forall|i: int| 0 <= i < walk.len() implies {
                                let parent = s.groups[#[trigger] walk[i]].parent;
                                parent is Some && (known.contains(parent->0) || walk.take(i).contains(parent->0))
                            } by {
                                if i < old_walk.len() {
                                    assert(walk[i] == old_walk[i]);
                                    assert(walk.take(i) =~= old_walk.take(i));
                                } else {
                                    assert(walk.take(i) =~= old_walk);
                                }
                            }
                        }
                        dest.put_group(group);
                        assert(dest@.tree() =~= mid.tree().insert(id, s.groups[id].parent));
                        log.record(MergeEventTarget::Group(id), MergeEventType::Created);
                    },
                    None => {
                        assert(s.groups.contains_key(all[m - 1]));
                    },
                }
            },
            None => {},
        }
    }
    proof {
        assert forall|g: GroupId| walk.contains(g) <==> exists|k: nat| #[trigger] climbs(t, known, from, g, k) by {
            if walk.contains(g) {
                let i = choose|i: int| 0 <= i < walk.len() && walk[i] == g;
                let k = (n - 1 - i) as nat;
                assert(ancestor(t, from, k) == Some(all[k as int]));
                assert(climbs(t, known, from, g, k)) by {
                    assert forall|q: nat| q <= k implies !known.contains((#[trigger] ancestor(t, from, q))->0) by {
                        assert(!known.contains(all[q as int]));
                    }
                }
            }
            if exists|k: nat| #[trigger] climbs(t, known, from, g, k) {
                let k = choose|k: nat| #[trigger] climbs(t, known, from, g, k);
                if k >= n {
                    assert(!known.contains(ancestor(t, from, n)->0));
                }
                assert(ancestor(t, from, k) == Some(all[k as int]));
                assert(walk[n - 1 - k] == g);
            }
        }
        assert forall|i: int, j: int| 0 <= i < walk.len() && 0 <= j < walk.len() && i != j implies walk[i] != walk[j] by {
            assert(walk[i] == all[n - 1 - i]);
            assert(walk[j] == all[n - 1 - j]);
        }
        assert forall|g: GroupId| #[trigger] walk.contains(g) implies !known.contains(g) by {
            let i = choose|i: int| 0 <= i < walk.len() && walk[i] == g;
            assert(!known.contains(all[n - 1 - i]));
        }
    }
    Ghost(walk)
}

/// Whether climbing from a group of the source leads to the root of the source without meeting a
/// group that the destination has.
fn climbs_to_root(dest: &Database, source: &Database, from: GroupId) -> (reached: bool)
    requires
        source@.wf(),
        source@.groups.contains_key(from),
    ensures
        reached == exists|n: nat| climbs(source@.tree(), dest@.groups.dom(), from, source@.root, n),
{
    let ghost known = dest@.groups.dom();
    let ghost s = source@;
    let ghost t = source@.tree();
    let root: GroupId = source.root_id();
    let mut at: GroupId = from;
    let ghost mut passed: nat = 0;
    proof {
        assert(t.contains_key(from));
    }
    let ghost mut depth: nat = choose|n: nat| ancestor(t, from, n) == Some(s.root);
    while dest.group(at).is_none()
        invariant
            s == source@,
            s.wf(),
            t == s.tree(),
            root == s.root,
            known == dest@.groups.dom(),
            t.contains_key(from),
            t.contains_key(at),
            ancestor(t, at, depth) == Some(s.root),
            ancestor(t, from, passed) == Some(at),
            forall|k: nat| k < passed ==> !known.contains((#[trigger] ancestor(t, from, k))->0),
            forall|k: nat| k < passed ==> #[trigger] ancestor(t, from, k) != Some(s.root),
        ensures
            known.contains(at),
        decreases depth,
    {
        assert(!known.contains(at));
        if at == root {
            assert(climbs(t, known, from, root, passed));
            return true;
        }
        proof {
            if depth > 0 {
                lemma_ancestor_first(t, at, depth);
            }
        }
        match source.group(at) {
            Some(group) => match group.parent {
                Some(parent) => {
                    proof {
                        assert(t[at] == Some(parent));
                        depth = (depth - 1) as nat;
                        passed = passed + 1;
                    }
                    at = parent;
                },
                None => {},
            },
            None => {},
        }
    }
    proof {
        assert forall|n: nat| !climbs(t, known, from, s.root, n) by {
            if climbs(t, known, from, s.root, n) {
                if n >= passed {
                    assert(!known.contains(ancestor(t, from, passed)->0));
                }
            }
        }
    }
    false
}

impl Database {
    /// Whether a merge can place the groups that it adds: it cannot if the root of the other
    /// database would be one of them.
    pub fn can_merge(&self, other: &Database) -> (can: bool)
        requires
            other@.wf(),
        ensures
            can == !group_created(self@, other@, other@.root),
    {
        let wanted: Vec<GroupId> = wanted_groups(self, other);
        let mut i: usize = 0;
        while i < wanted.len()
            invariant
                i <= wanted@.len(),
                other@.wf(),
                forall|g: GroupId| #[trigger] wanted@.contains(g) <==> group_wanted(self@, other@, g),
                forall|j: int, n: nat|
                    0 <= j < i ==> !#[trigger] climbs(
                        other@.tree(),
                        self@.groups.dom(),
                        wanted@[j],
                        other@.root,
                        n,
                    ),
            decreases wanted@.len() - i,
        {
            assert(wanted@.contains(wanted@[i as int]));
            if climbs_to_root(self, other, wanted[i]) {
                return false;
            }
            i = i + 1;
        }
        proof {
            if group_created(self@, other@, other@.root) {
                let (from, n) = choose|from: GroupId, n: nat|
                    group_wanted(self@, other@, from) && #[trigger] climbs(
                        other@.tree(),
                        self@.groups.dom(),
                        from,
                        other@.root,
                        n,
                    );
                assert(wanted@.contains(from));
                let j = choose|j: int| 0 <= j < wanted@.len() && wanted@[j] == from;
                assert(!climbs(other@.tree(), self@.groups.dom(), wanted@[j], other@.root, n));
            }
        }
        true
    }
}

/// What two walks report one after the other.
pub proof fn lemma_collected_concat<A>(a: Seq<A>, b: Seq<A>, notes: spec_fn(A) -> LogModel)
    ensures
        collected(a + b, notes) == collected(a, notes).plus(collected(b, notes)),
    decreases b.len(),
{
    if b.len() == 0 {
        assert(a + b =~= a);
    } else {
        assert((a + b).drop_last() =~= a + b.drop_last());
        lemma_collected_concat(a, b.drop_last(), notes);
    }
}

/// Adds the groups that only the source has, unless the destination deleted them.
pub fn add_new_groups(dest: &mut Database, source: &Database, log: &mut MergeLog) -> (walk: Ghost<Seq<GroupId>>)
    requires
        old(dest)@.wf(),
        source@.wf(),
        !group_created(old(dest)@, source@, source@.root),
    ensures
        final(dest)@ == with_new_groups(old(dest)@, source@),
        final(dest)@.wf(),
        creation_walk(walk@, old(dest)@, source@),
        final(log)@ == old(log)@.plus(collected(walk@, |g: GroupId| group_creation_notes(g))),
{
    let wanted: Vec<GroupId> = wanted_groups(dest, source);
    let ghost before = dest@;
    let ghost known = dest@.groups.dom();
    let ghost s = source@;
    let ghost t = source@.tree();
    let ghost notes = |g: GroupId| group_creation_notes(g);
    let ghost mut walk: Seq<GroupId> = Seq::empty();
    let mut i: usize = 0;
    while i < wanted.len()
        invariant
            i <= wanted@.len(),
            before == old(dest)@,
            known == before.groups.dom(),
            s == source@,
            s.wf(),
            t == s.tree(),
            forall|g: GroupId| #[trigger] wanted@.contains(g) <==> group_wanted(before, s, g),
            !group_created(before, s, s.root),
            dest@.wf(),
            dest@ == (DatabaseModel { groups: dest@.groups, ..before }),
            forall|g: GroupId| #[trigger] dest@.groups.contains_key(g) <==> known.contains(g) || walk.contains(g),
            forall|g: GroupId| #[trigger]
                dest@.groups.contains_key(g) ==> dest@.groups[g] == if known.contains(g) {
                    before.groups[g]
                } else {
                    s.groups[g]
                },
            forall|g: GroupId| #[trigger]
                walk.contains(g) <==> exists|j: int, n: nat|
                    0 <= j < i && #[trigger] climbs(t, known, wanted@[j], g, n),
            walk.no_duplicates(),
            parents_first(walk, known, s),
            notes == (|g: GroupId| group_creation_notes(g)),
            log@ == old(log)@.plus(collected(walk, notes)),
        decreases wanted@.len() - i,
    {
        let from = wanted[i];
        let ghost old_walk = walk;
        let ghost met = dest@.groups.dom();
        proof {
            assert(wanted@.contains(from));
            assert forall|g: GroupId, n: nat| #[trigger] climbs(t, met, from, g, n) implies climbs(
                t,
                known,
                from,
                g,
                n,
            ) by {
                assert forall|k: nat| k <= n implies !known.contains((#[trigger] ancestor(t, from, k))->0) by {
                    assert(!met.contains(ancestor(t, from, k)->0));
                }
            }
            assert forall|n: nat| !#[trigger] climbs(t, met, from, s.root, n) by {
                if climbs(t, met, from, s.root, n) {
                    assert(climbs(t, known, from, s.root, n));
                }
            }
        }
        let added = add_with_parents(dest, source, from, log);
        proof {
            walk = walk + added@;
            lemma_collected_concat(old_walk, added@, notes);
            assert forall|g: GroupId| #[trigger] walk.contains(g) <==> old_walk.contains(g) || added@.contains(g) by {
                if walk.contains(g) {
                    let j = choose|j: int| 0 <= j < walk.len() && walk[j] == g;
                    if j < old_walk.len() {
                        assert(old_walk[j] == g);
                    } else {
                        assert(added@[j - old_walk.len()] == g);
                    }
                }
                if old_walk.contains(g) {
                    let j = choose|j: int| 0 <= j < old_walk.len() && old_walk[j] == g;
                    assert(walk[j] == g);
                }
                if added@.contains(g) {
                    let j = choose|j: int| 0 <= j < added@.len() && added@[j] == g;
                    assert(walk[old_walk.len() + j] == g);
                }
            }
            assert forall|a: int, b: int| 0 <= a < walk.len() && 0 <= b < walk.len() && a != b implies walk[a]
                != walk[b] by {
                if a < old_walk.len() && b >= old_walk.len() {
                    assert(old_walk.contains(walk[a]));
                    assert(added@.contains(walk[b]));
                }
                if b < old_walk.len() && a >= old_walk.len() {
                    assert(old_walk.contains(walk[b]));
                    assert(added@.contains(walk[a]));
                }
            }
            assert forall|a: int| 0 <= a < walk.len() implies {
                let parent = s.groups[#[trigger] walk[a]].parent;
                parent is Some && (known.contains(parent->0) || walk.take(a).contains(parent->0))
            } by {
                if a < old_walk.len() {
                    assert(walk[a] == old_walk[a]);
                    assert(walk.take(a) =~= old_walk.take(a));
                } else {
                    let b = a - old_walk.len();
                    assert(walk[a] == added@[b]);
                    let parent = s.groups[added@[b]].parent->0;
                    assert(walk.take(a) =~= old_walk + added@.take(b));
                    if old_walk.contains(parent) {
                        let j = choose|j: int| 0 <= j < old_walk.len() && old_walk[j] == parent;
                        assert(walk.take(a)[j] == parent);
                    } else if added@.take(b).contains(parent) {
                        let j = choose|j: int| 0 <= j < b && added@.take(b)[j] == parent;
                        assert(walk.take(a)[old_walk.len() + j] == parent);
                    } else {
                        assert(met.contains(parent));
                    }
                }
            }
            assert forall|g: GroupId| #[trigger] walk.contains(g) <==> exists|j: int, n: nat|
                0 <= j < i + 1 && #[trigger] climbs(t, known, wanted@[j], g, n) by {
                if old_walk.contains(g) {
                    let (j, n) = choose|j: int, n: nat| 0 <= j < i && #[trigger] climbs(t, known, wanted@[j], g, n);
                    assert(climbs(t, known, wanted@[j], g, n));
                }
                if added@.contains(g) {
                    assert(dest@.groups.contains_key(g));
                    let n = choose|n: nat| climbs(t, met, from, g, n);
                    assert(climbs(t, known, wanted@[i as int], g, n));
                }
                if exists|j: int, n: nat| 0 <= j < i + 1 && #[trigger] climbs(t, known, wanted@[j], g, n) {
                    let (j, n) = choose|j: int, n: nat|
                        0 <= j < i + 1 && #[trigger] climbs(t, known, wanted@[j], g, n);
                    if j < i {
                        assert(old_walk.contains(g));
                    } else if climbs(t, met, from, g, n) {
                        assert(dest@.groups.contains_key(g));
                        assert(ancestor(t, from, n) == Some(g));
                        assert(!met.contains(ancestor(t, from, n)->0));
                        assert(added@.contains(g));
                    } else {
                        let k = choose|k: nat| k <= n && met.contains((#[trigger] ancestor(t, from, k))->0);
                        lemma_climb_defined(t, from, n, k);
                        let y = ancestor(t, from, k)->0;
                        assert(!known.contains(y));
                        assert(old_walk.contains(y));
                        let (q, m) = choose|q: int, m: nat|
                            0 <= q < i && #[trigger] climbs(t, known, wanted@[q], y, m);
                        lemma_climbs_join(t, known, wanted@[q], m, from, k, n, y, g);
                        assert(climbs(t, known, wanted@[q], g, (m + (n - k)) as nat));
                        assert(old_walk.contains(g));
                    }
                }
            }
        }
        i = i + 1;
    }
    proof {
        assert forall|g: GroupId| #[trigger] walk.contains(g) <==> group_created(before, s, g) by {
            if walk.contains(g) {
                let (j, n) = choose|j: int, n: nat|
                    0 <= j < wanted@.len() && #[trigger] climbs(t, known, wanted@[j], g, n);
                assert(wanted@.contains(wanted@[j]));
                assert(group_wanted(before, s, wanted@[j]));
            }
            if group_created(before, s, g) {
                let (from, n) = choose|from: GroupId, n: nat|
                    group_wanted(before, s, from) && #[trigger] climbs(t, known, from, g, n);
                assert(wanted@.contains(from));
                let j = choose|j: int| 0 <= j < wanted@.len() && wanted@[j] == from;
                assert(climbs(t, known, wanted@[j], g, n));
            }
        }
        assert(dest@.groups =~= with_new_groups(before, s).groups);
    }
    Ghost(walk)
}

} // verus!

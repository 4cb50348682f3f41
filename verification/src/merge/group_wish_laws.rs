//! Which groups a merge adds.
use vstd::prelude::*;

use crate::datetime::NaiveDateTime;
use crate::db::database::DatabaseModel;
use crate::db::tree::within;
use crate::ids::{EntryId, GroupId};
use crate::merge::arrivals::{changed_at, group_wanted};
use crate::merge::deletion_laws::{group_deleted_here_stays_deleted, wanted_group_is_added};
use crate::merge::field_laws::{ticks, time_goes_on};
use crate::merge::outcome_laws::last_tick;
use crate::merge::{merged, MergeCourse};

verus! {

/// A group itself, one of its entries or one of the groups directly below it was last changed at a
/// moment that has this number.
pub open spec fn touched(db: DatabaseModel, g: GroupId, n: int) -> bool {
    ||| last_tick(db.groups[g].times) == Some(n)
    ||| exists|e: EntryId| #[trigger]
        db.entries.contains_key(e) && db.entries[e].parent == g && last_tick(db.entries[e].times) == Some(n)
    ||| exists|c: GroupId| #[trigger]
        db.groups.contains_key(c) && db.groups[c].parent == Some(g) && last_tick(db.groups[c].times) == Some(n)
}

/// The destination did not delete a group, or it was touched after that.
pub open spec fn is_wanted(dest: DatabaseModel, source: DatabaseModel, g: GroupId) -> bool {
    dest.deleted_objects.contains_key(g.uuid) ==> exists|n: int| #[trigger]
        touched(source, g, n) && (dest.deleted_objects[g.uuid] is None || n > ticks(dest.deleted_objects[g.uuid]->0))
}

/// Whether a group is wanted depends on when it was touched.
proof fn lemma_wanted(dest: DatabaseModel, source: DatabaseModel, g: GroupId)
    ensures
        group_wanted(dest, source, g) <==> source.groups.contains_key(g) && !dest.groups.contains_key(g)
            && is_wanted(dest, source, g),
{
    if dest.deleted_objects.contains_key(g.uuid) {
        let deletion = dest.deleted_objects[g.uuid];
        if exists|t: NaiveDateTime| #[trigger]
            changed_at(source, g, t) && (deletion is None || t.is_after(deletion->0)) {
            let t = choose|t: NaiveDateTime| #[trigger]
                changed_at(source, g, t) && (deletion is None || t.is_after(deletion->0));
            if deletion is Some {
                time_goes_on(t, deletion->0);
            }
            lemma_touched(source, g, t);
            assert(touched(source, g, ticks(t)));
        }
        if exists|n: int| #[trigger] touched(source, g, n) && (deletion is None || n > ticks(deletion->0)) {
            let n = choose|n: int| #[trigger]
                touched(source, g, n) && (deletion is None || n > ticks(deletion->0));
            let t = lemma_touched_at(source, g, n);
            if deletion is Some {
                time_goes_on(t, deletion->0);
            }
            assert(changed_at(source, g, t));
        }
    }
}

/// A change is a touch.
pub proof fn lemma_touched(db: DatabaseModel, g: GroupId, t: NaiveDateTime)
    requires
        changed_at(db, g, t),
    ensures
        touched(db, g, ticks(t)),
{
    if db.groups[g].times.spec_last_change() != Some(t) {
        if exists|e: EntryId|
            {
                &&& #[trigger] db.entries.contains_key(e)
                &&& db.entries[e].parent == g
                &&& db.entries[e].times.spec_last_change() == Some(t)
            } {
            let e = choose|e: EntryId|
                {
                    &&& #[trigger] db.entries.contains_key(e)
                    &&& db.entries[e].parent == g
                    &&& db.entries[e].times.spec_last_change() == Some(t)
                };
            assert(last_tick(db.entries[e].times) == Some(ticks(t)));
        } else {
            let c = choose|c: GroupId|
                {
                    &&& #[trigger] db.groups.contains_key(c)
                    &&& db.groups[c].parent == Some(g)
                    &&& db.groups[c].times.spec_last_change() == Some(t)
                };
            assert(last_tick(db.groups[c].times) == Some(ticks(t)));
        }
    }
}

/// A touch is a change at some moment.
pub proof fn lemma_touched_at(db: DatabaseModel, g: GroupId, n: int) -> (t: NaiveDateTime)
    requires
        touched(db, g, n),
    ensures
        changed_at(db, g, t),
        ticks(t) == n,
{
    if last_tick(db.groups[g].times) == Some(n) {
        db.groups[g].times.spec_last_change()->0
    } else if exists|e: EntryId| #[trigger]
        db.entries.contains_key(e) && db.entries[e].parent == g && last_tick(db.entries[e].times) == Some(n) {
        let e = choose|e: EntryId| #[trigger]
            db.entries.contains_key(e) && db.entries[e].parent == g && last_tick(db.entries[e].times) == Some(n);
        db.entries[e].times.spec_last_change()->0
    } else {
        let c = choose|c: GroupId| #[trigger]
            db.groups.contains_key(c) && db.groups[c].parent == Some(g) && last_tick(db.groups[c].times) == Some(n);
        db.groups[c].times.spec_last_change()->0
    }
}

/// A group that only the source has is added if the destination did not delete it, or if it, an entry
/// in it or a group directly below it was changed after that.
pub proof fn wanted_group_is_taken_over(
    dest: DatabaseModel,
    source: DatabaseModel,
    now: NaiveDateTime,
    course: MergeCourse,
    after: DatabaseModel,
    g: GroupId,
)
    requires
        merged(dest, source, now, course, after),
        !dest.groups.contains_key(g),
        source.groups.contains_key(g),
        is_wanted(dest, source, g),
    ensures
        after.groups.contains_key(g),
{
    lemma_wanted(dest, source, g);
    wanted_group_is_added(dest, source, now, course, after, g);
}

/// A group that the destination deleted does not come back, if neither it nor a group below it was
/// touched by the source after its deletion.
pub proof fn deleted_group_does_not_come_back(
    dest: DatabaseModel,
    source: DatabaseModel,
    now: NaiveDateTime,
    course: MergeCourse,
    after: DatabaseModel,
    g: GroupId,
)
    requires
        merged(dest, source, now, course, after),
        !dest.groups.contains_key(g),
        forall|x: GroupId| #[trigger]
            source.groups.contains_key(x) && !dest.groups.contains_key(x) && within(source.tree(), x, g)
                ==> !is_wanted(dest, source, x),
    ensures
        !after.groups.contains_key(g),
{
    assert forall|x: GroupId| #[trigger] group_wanted(dest, source, x) implies !within(source.tree(), x, g) by {
        lemma_wanted(dest, source, x);
        assert(source.groups.contains_key(x));
    }
    group_deleted_here_stays_deleted(dest, source, now, course, after, g);
}

} // verus!

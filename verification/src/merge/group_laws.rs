//! What a merge does to each group, field by field.
use vstd::prelude::*;

use crate::datetime::NaiveDateTime;
use crate::db::database::DatabaseModel;
use crate::db::group::GroupModel;
use crate::db::icon::Icon;
use crate::ids::{EntryId, GroupId};
use crate::merge::arrivals::group_created;
use crate::merge::deletion_laws::{
    arranged, enlarged, lemma_arranged, lemma_created_in_source, lemma_lasting_stays,
    shared_group_stays,
};
use crate::merge::departures::group_lasts;
use crate::merge::field_laws::{group_holds, later_group_counts_field_by_field, ticks, ticks_or};
use crate::merge::group_changes::{place_present, reconciled_group};
use crate::merge::icon_imports::{aligned_source, lemma_adopted_alike, lemma_alike};
use crate::merge::icons::retargeted_group;
use crate::merge::{merged, MergeCourse};

verus! {

/// What a group that stays is merged from.
pub proof fn lemma_kept_group(
    dest: DatabaseModel,
    source: DatabaseModel,
    now: NaiveDateTime,
    course: MergeCourse,
    after: DatabaseModel,
    g: GroupId,
)
    requires
        source.wf(),
        merged(dest, source, now, course, after),
        dest.groups.contains_key(g) || source.groups.contains_key(g),
    ensures
        ({
            let aligned = aligned_source(course.base, source, course.imports);
            let grown = enlarged(source, course);
            let settled = arranged(source, now, course);
            let own = retargeted_group(dest.groups[g], course.translation);
            let theirs = aligned.groups[g];
            let target = source.groups[g].parent is Some && after.groups.contains_key(source.groups[g].parent->0);
            &&& after.groups.contains_key(g) ==> settled.groups.contains_key(g) && after.groups[g]
                == settled.groups[g]
            &&& source.groups.contains_key(g) ==> theirs == (GroupModel { icon: theirs.icon, ..source.groups[g] })
            &&& settled.groups.contains_key(g) && source.groups.contains_key(g) ==> after.groups.contains_key(g)
            &&& settled.groups.contains_key(g) && dest.groups.contains_key(g) && source.groups.contains_key(g)
                ==> settled.groups[g] == reconciled_group(own, theirs, target, now)
            &&& settled.groups.contains_key(g) && !dest.groups.contains_key(g) ==> settled.groups[g]
                == reconciled_group(theirs, theirs, target, now) && source.groups.contains_key(g)
            &&& settled.groups.contains_key(g) && !source.groups.contains_key(g) ==> settled.groups[g] == own
                && dest.groups.contains_key(g)
        }),
{
    let aligned = aligned_source(course.base, source, course.imports);
    let grown = enlarged(source, course);
    let settled = arranged(source, now, course);
    lemma_adopted_alike(dest, source, course.translation, course.base);
    lemma_alike(course.base, source, course.imports, course.start);
    lemma_arranged(dest, source, now, course, after);
    assert(course.base.groups.dom().contains(g) == dest.groups.dom().contains(g));
    assert(settled.groups.contains_key(g) == grown.groups.contains_key(g));
    if source.groups.contains_key(g) {
        assert(aligned.groups.contains_key(g));
        assert(group_lasts(settled, aligned, g));
        lemma_lasting_stays(dest, source, now, course, after, g, EntryId { uuid: g.uuid });
        let parent = source.groups[g].parent;
        if parent is Some {
            let p = parent->0;
            assert(source.tree().contains_key(g) && source.tree()[g] == parent);
            assert(source.groups.contains_key(p));
            assert(aligned.groups.contains_key(p));
            assert(group_lasts(settled, aligned, p));
            lemma_lasting_stays(dest, source, now, course, after, p, EntryId { uuid: g.uuid });
            assert(settled.groups.contains_key(p) == grown.groups.contains_key(p));
        }
        assert(place_present(grown.groups, aligned.groups[g]) == (parent is Some && after.groups.contains_key(
            parent->0,
        )));
    } else if settled.groups.contains_key(g) && !dest.groups.contains_key(g) {
        assert(group_created(course.start, aligned, g));
        lemma_created_in_source(course.start, aligned, g);
    }
    if grown.groups.contains_key(g) && !dest.groups.contains_key(g) {
        assert(grown.groups[g] == aligned.groups[g]);
    }
}

/// A group that both databases have stays, and holds what its later version holds, in every field,
/// unless it would have to move to a place that is not there. It stands where it was moved last.
pub proof fn shared_group_holds_the_later_version(
    dest: DatabaseModel,
    source: DatabaseModel,
    now: NaiveDateTime,
    course: MergeCourse,
    after: DatabaseModel,
    g: GroupId,
)
    requires
        source.wf(),
        merged(dest, source, now, course, after),
        dest.groups.contains_key(g),
        source.groups.contains_key(g),
    ensures
        ({
            let own = dest.groups[g];
            let theirs = source.groups[g];
            let kept = after.groups[g];
            let target = theirs.parent is Some && after.groups.contains_key(theirs.parent->0);
            let moves = match (own.times.location_changed, theirs.times.location_changed) {
                (Some(d), Some(s)) => own.parent != theirs.parent && ticks(s) > ticks(d),
                _ => false,
            };
            let later = ticks_or(theirs.times.last_modification, 0) > ticks_or(
                own.times.last_modification,
                ticks(now),
            );
            let winner = if later && (moves ==> target) {
                theirs
            } else {
                own
            };
            &&& after.groups.contains_key(g)
            &&& group_holds(kept, winner)
            &&& kept.is_expanded == winner.is_expanded
            &&& kept.last_top_visible_entry == winner.last_top_visible_entry
            &&& kept.id == own.id
            &&& kept.parent == if moves && target {
                theirs.parent
            } else {
                own.parent
            }
            &&& kept.times.location_changed == if moves && target {
                theirs.times.location_changed
            } else {
                own.times.location_changed
            }
            &&& winner.times.last_modification is Some ==> kept.times.last_modification
                == winner.times.last_modification
            &&& winner.times.last_modification is None ==> kept.times.last_modification
                == own.times.last_modification
            &&& kept.times.creation == own.times.creation
            &&& kept.times.last_access == own.times.last_access
            &&& kept.times.expiry == own.times.expiry
            &&& kept.times.expires == own.times.expires
            &&& kept.times.usage_count == own.times.usage_count
        }),
{
    let own = retargeted_group(dest.groups[g], course.translation);
    let theirs = aligned_source(course.base, source, course.imports).groups[g];
    let target = source.groups[g].parent is Some && after.groups.contains_key(source.groups[g].parent->0);
    lemma_kept_group(dest, source, now, course, after, g);
    lemma_arranged(dest, source, now, course, after);
    shared_group_stays(dest, source, now, course, after, g);
    later_group_counts_field_by_field(own, theirs, target, now);
}

/// A group that is added is what it is in the source.
pub proof fn new_group_is_taken_over(
    dest: DatabaseModel,
    source: DatabaseModel,
    now: NaiveDateTime,
    course: MergeCourse,
    after: DatabaseModel,
    g: GroupId,
)
    requires
        source.wf(),
        merged(dest, source, now, course, after),
        !dest.groups.contains_key(g),
        after.groups.contains_key(g),
    ensures
        ({
            let theirs = source.groups[g];
            let added = after.groups[g];
            &&& source.groups.contains_key(g)
            &&& group_holds(added, theirs)
            &&& added.is_expanded == theirs.is_expanded
            &&& added.last_top_visible_entry == theirs.last_top_visible_entry
            &&& added.id == theirs.id
            &&& added.parent == theirs.parent
            &&& added.times == theirs.times
        }),
{
    let aligned = aligned_source(course.base, source, course.imports);
    let theirs = aligned.groups[g];
    let settled = arranged(source, now, course);
    lemma_arranged(dest, source, now, course, after);
    assert(settled.groups.contains_key(g));
    assert(group_created(dest, source, g));
    lemma_created_in_source(dest, source, g);
    lemma_kept_group(dest, source, now, course, after, g);
    let target = source.groups[g].parent is Some && after.groups.contains_key(source.groups[g].parent->0);
    later_group_counts_field_by_field(theirs, theirs, target, now);
}

/// A group that stays, and that the source does not have, stays as it is.
pub proof fn own_group_is_left_alone(
    dest: DatabaseModel,
    source: DatabaseModel,
    now: NaiveDateTime,
    course: MergeCourse,
    after: DatabaseModel,
    g: GroupId,
)
    requires
        source.wf(),
        merged(dest, source, now, course, after),
        dest.groups.contains_key(g),
        !source.groups.contains_key(g),
        after.groups.contains_key(g),
    ensures
        ({
            let own = dest.groups[g];
            let kept = after.groups[g];
            &&& group_holds(kept, own)
            &&& kept.is_expanded == own.is_expanded
            &&& kept.last_top_visible_entry == own.last_top_visible_entry
            &&& kept.id == own.id
            &&& kept.parent == own.parent
            &&& kept.times == own.times
            &&& (own.icon matches Some(Icon::Custom(i)) ==> dest.custom_icons.contains_key(i)) ==> kept.icon
                == own.icon
        }),
{
    lemma_kept_group(dest, source, now, course, after, g);
    match dest.groups[g].icon {
        Some(Icon::Custom(i)) => {
            if dest.custom_icons.contains_key(i) {
                assert(!course.translation.contains_key(i));
            }
        },
        _ => {},
    }
}

} // verus!

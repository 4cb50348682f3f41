//! What becomes of two versions of an object, field by field.
use vstd::prelude::*;

use crate::datetime::{lemma_epoch, lemma_time_total, NaiveDateTime};
use crate::db::entry::EntryModel;
use crate::db::group::GroupModel;
use crate::merge::diverge::{entries_diverged, groups_diverged};
use crate::merge::entries::{entry_conflict, reconciled_entry};
use crate::merge::group_changes::{group_conflict, reconciled_group};

verus! {

/// A moment as a number that grows with time. The start of 1970 is zero.
pub open spec fn ticks(t: NaiveDateTime) -> int {
    t.spec_seconds() * 0x1_0000_0000 + t.spec_nanos()
}

/// A moment as a number, or another number where it is unknown.
pub open spec fn ticks_or(t: Option<NaiveDateTime>, otherwise: int) -> int {
    match t {
        Some(t) => ticks(t),
        None => otherwise,
    }
}

/// Two versions of an entry hold the same, icon and attachments aside.
pub open spec fn entry_holds(a: EntryModel, b: EntryModel) -> bool {
    &&& a.fields == b.fields
    &&& a.autotype == b.autotype
    &&& a.tags == b.tags
    &&& a.custom_data == b.custom_data
    &&& a.foreground_color == b.foreground_color
    &&& a.background_color == b.background_color
    &&& a.override_url == b.override_url
    &&& a.quality_check == b.quality_check
    &&& a.previous_parent_group == b.previous_parent_group
}

/// Two versions of a group hold the same, the icon and what a client changes as the user looks at
/// the group aside.
pub open spec fn group_holds(a: GroupModel, b: GroupModel) -> bool {
    &&& a.name == b.name
    &&& a.notes == b.notes
    &&& a.custom_data == b.custom_data
    &&& a.default_autotype_sequence == b.default_autotype_sequence
    &&& a.enable_autotype == b.enable_autotype
    &&& a.enable_searching == b.enable_searching
    &&& a.previous_parent_group == b.previous_parent_group
    &&& a.tags == b.tags
}

/// A moment is after another one exactly if its number is greater, and different moments have
/// different numbers.
pub proof fn time_goes_on(a: NaiveDateTime, b: NaiveDateTime)
    ensures
        a.is_after(b) <==> ticks(a) > ticks(b),
        ticks(a) == ticks(b) <==> a == b,
        ticks(NaiveDateTime::spec_epoch()) == 0,
{
    lemma_time_total(a, b);
    lemma_epoch();
}

/// Two versions of an entry have not diverged exactly if they agree in every field but the times and
/// the history.
pub proof fn entries_agree_field_by_field(a: EntryModel, b: EntryModel)
    ensures
        !entries_diverged(a, b) <==> entry_holds(a, b) && a.id == b.id && a.parent == b.parent && a.icon == b.icon
            && a.attachments == b.attachments,
{
    let same = EntryModel { times: b.times, history: b.history, ..a };
    if entry_holds(a, b) && a.id == b.id && a.parent == b.parent && a.icon == b.icon && a.attachments
        == b.attachments {
        assert(same == b);
    }
}

/// Two versions of a group have not diverged exactly if they agree in every field but the times, the
/// place and what a client changes as the user looks at the group.
pub proof fn groups_agree_field_by_field(a: GroupModel, b: GroupModel)
    ensures
        !groups_diverged(a, b) <==> group_holds(a, b) && a.id == b.id && a.icon == b.icon,
{
    let same = GroupModel {
        times: b.times,
        parent: b.parent,
        is_expanded: b.is_expanded,
        last_top_visible_entry: b.last_top_visible_entry,
        ..a
    };
    if group_holds(a, b) && a.id == b.id && a.icon == b.icon {
        assert(same == b);
    }
}

/// Two versions of an entry conflict exactly if they are of the same moment and differ in some field
/// other than the times, the history and the group in which the entry stands.
pub proof fn entry_conflict_field_by_field(dest: EntryModel, source: EntryModel, now: NaiveDateTime)
    ensures
        entry_conflict(dest, source, now) <==> ticks_or(dest.times.last_modification, ticks(now)) == ticks_or(
            source.times.last_modification,
            0,
        ) && !(entry_holds(dest, source) && dest.id == source.id && dest.icon == source.icon && dest.attachments
            == source.attachments),
{
    let epoch = NaiveDateTime::spec_epoch();
    let d = match dest.times.last_modification {
        Some(t) => t,
        None => now,
    };
    let s = match source.times.last_modification {
        Some(t) => t,
        None => epoch,
    };
    time_goes_on(d, s);
    time_goes_on(s, epoch);
    entries_agree_field_by_field(EntryModel { parent: source.parent, ..dest }, source);
}

/// Two versions of a group conflict exactly if they are of the same moment and differ in some field
/// that counts, unless the group would have to move to a place that is not there.
pub proof fn group_conflict_field_by_field(
    dest: GroupModel,
    source: GroupModel,
    target_present: bool,
    now: NaiveDateTime,
)
    ensures
        dest.parent == source.parent || target_present ==> (group_conflict(dest, source, target_present, now)
            <==> ticks_or(dest.times.last_modification, ticks(now)) == ticks_or(source.times.last_modification, 0)
            && !(group_holds(dest, source) && dest.id == source.id && dest.icon == source.icon)),
{
    let epoch = NaiveDateTime::spec_epoch();
    let d = match dest.times.last_modification {
        Some(t) => t,
        None => now,
    };
    let s = match source.times.last_modification {
        Some(t) => t,
        None => epoch,
    };
    time_goes_on(d, s);
    time_goes_on(s, epoch);
    groups_agree_field_by_field(dest, source);
}

/// Of two versions of an entry the later one counts, in every field. An undated version of the
/// source is of the start of 1970, and one of the destination is of the moment of the merge.
pub proof fn later_entry_counts_field_by_field(
    dest: EntryModel,
    source: EntryModel,
    target_present: bool,
    now: NaiveDateTime,
)
    ensures
        ({
            let merged = reconciled_entry(dest, source, target_present, now);
            let later = ticks_or(source.times.last_modification, 0) > ticks_or(
                dest.times.last_modification,
                ticks(now),
            );
            let winner = if later {
                source
            } else {
                dest
            };
            &&& entry_holds(merged, winner)
            &&& merged.icon == winner.icon
            &&& merged.attachments == winner.attachments
            &&& merged.times.last_modification == winner.times.last_modification
            &&& merged.id == dest.id || dest == source
            &&& merged.times.creation == dest.times.creation
            &&& merged.times.last_access == dest.times.last_access
            &&& merged.times.expiry == dest.times.expiry
            &&& merged.times.expires == dest.times.expires
            &&& merged.times.usage_count == dest.times.usage_count
        }),
{
    let epoch = NaiveDateTime::spec_epoch();
    let d = match dest.times.last_modification {
        Some(t) => t,
        None => now,
    };
    let s = match source.times.last_modification {
        Some(t) => t,
        None => epoch,
    };
    time_goes_on(d, s);
    time_goes_on(s, d);
    time_goes_on(s, epoch);
}

/// An entry moves to the group in which the source has it exactly if that is another one, the source
/// moved it later, and the destination has that group. Which version counts has no bearing on it.
pub proof fn later_move_counts(dest: EntryModel, source: EntryModel, target_present: bool, now: NaiveDateTime)
    ensures
        ({
            let merged = reconciled_entry(dest, source, target_present, now);
            let moves = match (dest.times.location_changed, source.times.location_changed) {
                (Some(d), Some(s)) => dest.parent != source.parent && ticks(s) > ticks(d) && target_present,
                _ => false,
            };
            &&& moves ==> merged.parent == source.parent && merged.times.location_changed
                == source.times.location_changed
            &&& !moves ==> merged.parent == dest.parent
            &&& !moves && dest.times.location_changed is Some ==> merged.times.location_changed
                == dest.times.location_changed
            &&& dest.times.location_changed is None && ticks_or(dest.times.last_modification, ticks(now)) == ticks_or(
                source.times.last_modification,
                0,
            ) ==> merged.times.location_changed is None
            &&& dest.times.location_changed is None && dest != source && ticks_or(
                dest.times.last_modification,
                ticks(now),
            ) != ticks_or(source.times.last_modification, 0) ==> merged.times.location_changed
                == source.times.location_changed
        }),
{
    let epoch = NaiveDateTime::spec_epoch();
    let d = match dest.times.last_modification {
        Some(t) => t,
        None => now,
    };
    let s = match source.times.last_modification {
        Some(t) => t,
        None => epoch,
    };
    time_goes_on(d, s);
    time_goes_on(s, d);
    time_goes_on(s, epoch);
    if dest.times.location_changed is Some && source.times.location_changed is Some {
        time_goes_on(source.times.location_changed->0, dest.times.location_changed->0);
    }
}

/// Of two versions of a group the later one counts, in every field, unless the group would have to
/// move to a place that is not there. Then it stays as it is.
pub proof fn later_group_counts_field_by_field(
    dest: GroupModel,
    source: GroupModel,
    target_present: bool,
    now: NaiveDateTime,
)
    ensures
        ({
            let merged = reconciled_group(dest, source, target_present, now);
            let moves = match (dest.times.location_changed, source.times.location_changed) {
                (Some(d), Some(s)) => dest.parent != source.parent && ticks(s) > ticks(d),
                _ => false,
            };
            let later = ticks_or(source.times.last_modification, 0) > ticks_or(
                dest.times.last_modification,
                ticks(now),
            );
            let winner = if later && (moves ==> target_present) {
                source
            } else {
                dest
            };
            &&& group_holds(merged, winner)
            &&& merged.icon == winner.icon
            &&& merged.is_expanded == winner.is_expanded
            &&& merged.last_top_visible_entry == winner.last_top_visible_entry
            &&& merged.id == dest.id
            &&& merged.parent == if moves && target_present {
                source.parent
            } else {
                dest.parent
            }
            &&& merged.times.location_changed == if moves && target_present {
                source.times.location_changed
            } else {
                dest.times.location_changed
            }
            &&& winner.times.last_modification is Some ==> merged.times.last_modification
                == winner.times.last_modification
            &&& winner.times.last_modification is None ==> merged.times.last_modification
                == dest.times.last_modification
            &&& merged.times.creation == dest.times.creation
            &&& merged.times.last_access == dest.times.last_access
            &&& merged.times.expiry == dest.times.expiry
            &&& merged.times.expires == dest.times.expires
            &&& merged.times.usage_count == dest.times.usage_count
        }),
{
    let epoch = NaiveDateTime::spec_epoch();
    let d = match dest.times.last_modification {
        Some(t) => t,
        None => now,
    };
    let s = match source.times.last_modification {
        Some(t) => t,
        None => epoch,
    };
    time_goes_on(d, s);
    time_goes_on(s, d);
    time_goes_on(s, epoch);
    if dest.times.location_changed is Some && source.times.location_changed is Some {
        time_goes_on(source.times.location_changed->0, dest.times.location_changed->0);
    }
}

} // verus!

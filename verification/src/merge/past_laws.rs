//! What becomes of the archived versions of an entry in a merge.
use vstd::prelude::*;

use crate::datetime::NaiveDateTime;
use crate::db::database::{histories_fit, DatabaseModel};
use crate::db::entry::EntryModel;
use crate::db::icon::Icon;
use crate::ids::EntryId;
use crate::merge::archive_laws::{
    dated_copy, latest_first, merged_entry_has_its_past_in_order, merged_entry_has_no_other_past,
    merged_entry_loses_no_version, one_version, past, replaced_version_is_in_the_past, times_kept,
};
use crate::merge::attachments::{entry_uses, imported, imported_version};
use crate::merge::deletion_laws::{arranged, enlarged, lemma_arranged};
use crate::merge::entries::{entry_created, entry_shared};
use crate::merge::field_laws::{entry_holds, ticks, ticks_or, time_goes_on};
use crate::merge::icon_imports::{aligned_source, imported_icon, lemma_adopted_alike, lemma_alike};
use crate::merge::icons::{icon_referenced, retargeted, retargeted_entry};
use crate::merge::image_laws::lemma_used_stays;
use crate::merge::outcome_laws::{is_shown, lemma_shared_entry};
use crate::merge::references::{refers_at, Reference};
use crate::merge::{merged, MergeCourse};

verus! {

/// Two versions hold the same and are of the same moment, icon and attachments aside. An undated version
/// is of the start of 1970.
pub open spec fn same_past(a: EntryModel, b: EntryModel) -> bool {
    entry_holds(a, b) && ticks_or(a.times.last_modification, 0) == ticks_or(b.times.last_modification, 0)
}

/// A version that is kept at least once is there.
proof fn lemma_kept(history: Seq<EntryModel>, x: EntryModel)
    requires
        times_kept(history, x) > 0,
    ensures
        exists|k: int| 0 <= k < history.len() && one_version(#[trigger] history[k], x),
    decreases history.len(),
{
    if !one_version(history.last(), x) {
        lemma_kept(history.drop_last(), x);
        let k = choose|k: int|
            0 <= k < history.drop_last().len() && one_version(#[trigger] history.drop_last()[k], x);
        assert(one_version(history[k], x));
    } else {
        assert(one_version(history[history.len() - 1], x));
    }
}

/// A version that is there is kept at least once.
proof fn lemma_there(history: Seq<EntryModel>, i: int)
    requires
        0 <= i < history.len(),
    ensures
        times_kept(history, history[i]) > 0,
    decreases history.len(),
{
    if i < history.len() - 1 {
        lemma_there(history.drop_last(), i);
        assert(history.drop_last()[i] == history[i]);
    }
}

/// The archived versions of a source's entry as they were brought in.
proof fn lemma_copied_past(
    dest: DatabaseModel,
    source: DatabaseModel,
    now: NaiveDateTime,
    course: MergeCourse,
    after: DatabaseModel,
    e: EntryId,
)
    requires
        merged(dest, source, now, course, after),
        dest.entries.contains_key(e),
        source.entries.contains_key(e),
    ensures
        ({
            let copy = course.groups.entries.copies[e];
            &&& past(copy).len() == past(source.entries[e]).len()
            &&& forall|i: int|
                0 <= i < past(copy).len() ==> entry_holds(#[trigger] past(copy)[i], past(source.entries[e])[i])
                    && past(copy)[i].times == past(source.entries[e])[i].times
        }),
{
    let aligned = aligned_source(course.base, source, course.imports);
    let grown = enlarged(source, course);
    let copy = course.groups.entries.copies[e];
    lemma_adopted_alike(dest, source, course.translation, course.base);
    lemma_alike(course.base, source, course.imports, course.start);
    assert(course.base.entries.dom().contains(e) == dest.entries.dom().contains(e));
    assert(aligned.entries.contains_key(e));
    assert(entry_shared(grown, aligned, e));
    assert forall|i: int| 0 <= i < past(copy).len() implies entry_holds(
        #[trigger] past(copy)[i],
        past(source.entries[e])[i],
    ) && past(copy)[i].times == past(source.entries[e])[i].times by {
        assert(imported_version(
            aligned.entries[e].history->0[i],
            copy.history->0[i],
            source.attachments,
            course.groups.middle.attachments,
        ));
    }
}

/// Where one of two versions of an entry is later, the merged entry has every archived version of both,
/// the latest first, and where the destination's version was replaced, that one too.
pub proof fn shared_entry_keeps_its_past(
    dest: DatabaseModel,
    source: DatabaseModel,
    now: NaiveDateTime,
    course: MergeCourse,
    after: DatabaseModel,
    e: EntryId,
)
    requires
        merged(dest, source, now, course, after),
        dest.entries.contains_key(e),
        source.entries.contains_key(e),
        dest.entries[e].times.last_modification is Some,
        ticks(dest.entries[e].times.last_modification->0) != ticks_or(
            source.entries[e].times.last_modification,
            0,
        ),
    ensures
        ({
            let own = dest.entries[e];
            let theirs = source.entries[e];
            let kept = past(after.entries[e]);
            &&& latest_first(kept)
            &&& forall|i: int|
                #![trigger past(own)[i]]
                0 <= i < past(own).len() ==> exists|k: int|
                    0 <= k < kept.len() && same_past(#[trigger] kept[k], past(own)[i]) && kept[k].attachments
                        == past(own)[i].attachments && (is_shown(past(own)[i].icon, dest) ==> kept[k].icon
                        == past(own)[i].icon)
            &&& forall|i: int|
                #![trigger past(theirs)[i]]
                0 <= i < past(theirs).len() ==> exists|k: int|
                    0 <= k < kept.len() && same_past(#[trigger] kept[k], past(theirs)[i])
            &&& ticks_or(theirs.times.last_modification, 0) > ticks(own.times.last_modification->0) ==> exists|
                k: int,
            |
                0 <= k < kept.len() && entry_holds(#[trigger] kept[k], own) && kept[k].attachments == own.attachments
            &&& forall|k: int|
                #![trigger kept[k]]
                0 <= k < kept.len() ==> {
                    ||| exists|i: int| 0 <= i < past(own).len() && same_past(kept[k], #[trigger] past(own)[i])
                    ||| exists|i: int| 0 <= i < past(theirs).len() && same_past(kept[k], #[trigger] past(theirs)[i])
                    ||| entry_holds(kept[k], own) && kept[k].times.last_modification == own.times.last_modification
                }
        }),
{
    let own = retargeted_entry(dest.entries[e], course.translation);
    let theirs = source.entries[e];
    let copy = course.groups.entries.copies[e];
    let target = enlarged(source, course).groups.contains_key(source.entries[e].parent);
    let kept = past(after.entries[e]);
    lemma_shared_entry(dest, source, now, course, after, e);
    lemma_copied_past(dest, source, now, course, after, e);
    assert(own != copy);
    merged_entry_has_its_past_in_order(own, copy, target, now);
    assert forall|i: int|
        #![trigger past(dest.entries[e])[i]]
        0 <= i < past(dest.entries[e]).len() implies exists|k: int|
        0 <= k < kept.len() && same_past(#[trigger] kept[k], past(dest.entries[e])[i]) && kept[k].attachments
            == past(dest.entries[e])[i].attachments && (is_shown(past(dest.entries[e])[i].icon, dest) ==> kept[k].icon
            == past(dest.entries[e])[i].icon) by {
        match past(dest.entries[e])[i].icon {
            Some(Icon::Custom(c)) => {
                if dest.custom_icons.contains_key(c) {
                    assert(!course.translation.contains_key(c));
                }
            },
            _ => {},
        }
        lemma_there(past(own), i);
        merged_entry_loses_no_version(own, copy, target, now, past(own)[i]);
        lemma_kept(kept, past(own)[i]);
        let k = choose|k: int| 0 <= k < kept.len() && one_version(#[trigger] kept[k], past(own)[i]);
        assert(same_past(kept[k], past(dest.entries[e])[i]));
    }
    assert forall|i: int| #![trigger past(theirs)[i]] 0 <= i < past(theirs).len() implies exists|k: int|
        0 <= k < kept.len() && same_past(#[trigger] kept[k], past(theirs)[i]) by {
        lemma_there(past(copy), i);
        merged_entry_loses_no_version(own, copy, target, now, past(copy)[i]);
        lemma_kept(kept, past(copy)[i]);
        let k = choose|k: int| 0 <= k < kept.len() && one_version(#[trigger] kept[k], past(copy)[i]);
        assert(entry_holds(past(copy)[i], past(theirs)[i]));
        assert(same_past(kept[k], past(theirs)[i]));
    }
    if ticks_or(theirs.times.last_modification, 0) > ticks(dest.entries[e].times.last_modification->0) {
        replaced_version_is_in_the_past(own, copy, target, now);
        let v = choose|v: EntryModel| #[trigger]
            kept.contains(v) && entry_holds(v, own) && v.icon == own.icon && v.attachments == own.attachments && v.id
                == own.id;
        let k = choose|k: int| 0 <= k < kept.len() && kept[k] == v;
        assert(entry_holds(kept[k], dest.entries[e]));
    }
    assert forall|k: int| #![trigger kept[k]] 0 <= k < kept.len() implies {
        ||| exists|i: int|
            0 <= i < past(dest.entries[e]).len() && same_past(kept[k], #[trigger] past(dest.entries[e])[i])
        ||| exists|i: int| 0 <= i < past(theirs).len() && same_past(kept[k], #[trigger] past(theirs)[i])
        ||| entry_holds(kept[k], dest.entries[e]) && kept[k].times.last_modification
            == dest.entries[e].times.last_modification
    } by {
        let v = kept[k];
        assert(kept.contains(v));
        merged_entry_has_no_other_past(own, copy, target, now, v);
        if exists|i: int| 0 <= i < past(own).len() && dated_copy(v, #[trigger] past(own)[i]) {
            let i = choose|i: int| 0 <= i < past(own).len() && dated_copy(v, #[trigger] past(own)[i]);
            assert(same_past(v, past(dest.entries[e])[i]));
        } else if exists|i: int| 0 <= i < past(copy).len() && dated_copy(v, #[trigger] past(copy)[i]) {
            let i = choose|i: int| 0 <= i < past(copy).len() && dated_copy(v, #[trigger] past(copy)[i]);
            assert(entry_holds(past(copy)[i], past(theirs)[i]));
            assert(same_past(v, past(theirs)[i]));
        }
    }
}

/// Where both versions of an entry are of the same moment, its archived versions stay as they are.
pub proof fn level_entry_keeps_its_past(
    dest: DatabaseModel,
    source: DatabaseModel,
    now: NaiveDateTime,
    course: MergeCourse,
    after: DatabaseModel,
    e: EntryId,
)
    requires
        merged(dest, source, now, course, after),
        dest.entries.contains_key(e),
        source.entries.contains_key(e),
        ticks_or(dest.entries[e].times.last_modification, ticks(now)) == ticks_or(
            source.entries[e].times.last_modification,
            0,
        ),
    ensures
        ({
            let own = past(dest.entries[e]);
            let kept = past(after.entries[e]);
            &&& kept.len() == own.len()
            &&& forall|i: int|
                0 <= i < own.len() ==> entry_holds(#[trigger] kept[i], own[i]) && kept[i].times == own[i].times
                    && kept[i].attachments == own[i].attachments
        }),
{
    let own = retargeted_entry(dest.entries[e], course.translation);
    let copy = course.groups.entries.copies[e];
    lemma_shared_entry(dest, source, now, course, after, e);
    let epoch = NaiveDateTime::spec_epoch();
    let d = match own.times.last_modification {
        Some(t) => t,
        None => now,
    };
    let s = match copy.times.last_modification {
        Some(t) => t,
        None => epoch,
    };
    time_goes_on(d, s);
    time_goes_on(s, epoch);
}

/// Where one of two versions of an entry is later, an archived version of the source is there with its
/// attachments, under the same names and with the same data, and with what it shows.
pub proof fn archived_version_of_the_source_is_complete(
    dest: DatabaseModel,
    source: DatabaseModel,
    now: NaiveDateTime,
    course: MergeCourse,
    after: DatabaseModel,
    e: EntryId,
    i: int,
)
    requires
        histories_fit(source),
        histories_fit(after),
        merged(dest, source, now, course, after),
        dest.entries.contains_key(e),
        source.entries.contains_key(e),
        dest.entries[e].times.last_modification is Some,
        ticks(dest.entries[e].times.last_modification->0) != ticks_or(
            source.entries[e].times.last_modification,
            0,
        ),
        0 <= i < past(source.entries[e]).len(),
    ensures
        exists|k: int|
            0 <= k < past(after.entries[e]).len() && same_past(
                #[trigger] past(after.entries[e])[k],
                past(source.entries[e])[i],
            ) && carried(past(source.entries[e])[i], past(after.entries[e])[k], source, after),
{
    let own = retargeted_entry(dest.entries[e], course.translation);
    let theirs = source.entries[e];
    let copy = course.groups.entries.copies[e];
    let aligned = aligned_source(course.base, source, course.imports);
    let target = enlarged(source, course).groups.contains_key(source.entries[e].parent);
    let kept = past(after.entries[e]);
    lemma_adopted_alike(dest, source, course.translation, course.base);
    lemma_alike(course.base, source, course.imports, course.start);
    lemma_shared_entry(dest, source, now, course, after, e);
    lemma_copied_past(dest, source, now, course, after, e);
    assert(own != copy);
    lemma_there(past(copy), i);
    merged_entry_loses_no_version(own, copy, target, now, past(copy)[i]);
    lemma_kept(kept, past(copy)[i]);
    let k = choose|k: int| 0 <= k < kept.len() && one_version(#[trigger] kept[k], past(copy)[i]);
    assert(entry_holds(past(copy)[i], past(theirs)[i]));
    assert(same_past(kept[k], past(theirs)[i]));
    assert(course.base.entries.dom().contains(e) == dest.entries.dom().contains(e));
    assert(aligned.entries.contains_key(e));
    assert(entry_shared(enlarged(source, course), aligned, e));
    lemma_version_carried(dest, source, now, course, after, e, i, k);
}

/// A version of the source is there with its attachments, under the same names and with the same data,
/// and with what it shows: the same built-in icon, none, or the same image.
pub open spec fn carried(from: EntryModel, to: EntryModel, source: DatabaseModel, after: DatabaseModel) -> bool {
    &&& to.attachments.dom() == from.attachments.dom()
    &&& forall|name: Seq<char>| #[trigger]
        from.attachments.contains_key(name) ==> source.attachments.contains_key(from.attachments[name])
            && after.attachments.contains_key(to.attachments[name])
            && after.attachments[to.attachments[name]].data == source.attachments[from.attachments[name]].data
    &&& match from.icon {
        Some(Icon::Custom(x)) => source.custom_icons.contains_key(x) ==> (to.icon matches Some(Icon::Custom(j))
            && after.custom_icons.contains_key(j) && after.custom_icons[j].data == source.custom_icons[x].data),
        icon => to.icon == icon,
    }
}

/// An archived version of the source that is kept is kept with what belongs to it.
proof fn lemma_version_carried(
    dest: DatabaseModel,
    source: DatabaseModel,
    now: NaiveDateTime,
    course: MergeCourse,
    after: DatabaseModel,
    e: EntryId,
    i: int,
    k: int,
)
    requires
        histories_fit(source),
        histories_fit(after),
        merged(dest, source, now, course, after),
        source.entries.contains_key(e),
        after.entries.contains_key(e),
        0 <= i < past(source.entries[e]).len(),
        0 <= k < past(after.entries[e]).len(),
        past(course.groups.entries.copies[e]).len() == past(source.entries[e]).len(),
        imported(
            aligned_source(course.base, source, course.imports).entries[e],
            course.groups.entries.copies[e],
            source.attachments,
            course.groups.middle.attachments,
        ),
        past(after.entries[e])[k].attachments == past(course.groups.entries.copies[e])[i].attachments,
        past(after.entries[e])[k].icon == past(course.groups.entries.copies[e])[i].icon,
    ensures
        carried(past(source.entries[e])[i], past(after.entries[e])[k], source, after),
{
    let aligned = aligned_source(course.base, source, course.imports);
    let copy = course.groups.entries.copies[e];
    let from = past(source.entries[e])[i];
    let shown = aligned.entries[e].history->0[i];
    let to = past(after.entries[e])[k];
    assert(imported_version(shown, copy.history->0[i], source.attachments, course.groups.middle.attachments));
    assert(shown.attachments == from.attachments);
    assert(shown.icon == retargeted(from.icon, course.imports));
    assert forall|name: Seq<char>| #[trigger] from.attachments.contains_key(name) implies source.attachments.contains_key(
        from.attachments[name],
    ) && after.attachments.contains_key(to.attachments[name])
        && after.attachments[to.attachments[name]].data == source.attachments[from.attachments[name]].data by {
        assert(shown.attachments.contains_key(name));
        let a = to.attachments[name];
        assert(to.attachments.dom().contains(name));
        assert(to.attachments.contains_value(a));
        assert(after.entries[e].history->0[k].attachments.contains_value(a));
        assert(entry_uses(after.entries[e], a));
        lemma_used_stays(dest, source, now, course, after, e, a);
    }
    match from.icon {
        Some(Icon::Custom(x)) => {
            assert(refers_at(source.entries, (e, Some(i as usize)), Reference::Icon(x)));
            assert(icon_referenced(source, x));
            assert(course.imports.contains_key(x));
            assert(imported_icon(
                x,
                course.imports[x],
                course.base.custom_icons,
                course.start.custom_icons,
                source.custom_icons,
            ));
            if source.custom_icons.contains_key(x) {
                let j = course.imports[x]->0;
                assert(course.start.custom_icons.contains_key(j));
                assert(course.settled.custom_icons.contains_key(j));
                assert(after.entries == course.settled.entries);
                assert(refers_at(course.settled.entries, (e, Some(k as usize)), Reference::Icon(j)));
                assert(icon_referenced(course.settled, j));
            }
        },
        _ => {},
    }
}

/// An archived version of an entry that only the source has is there with its attachments and with what
/// it shows.
pub proof fn archived_version_of_a_new_entry_is_complete(
    dest: DatabaseModel,
    source: DatabaseModel,
    now: NaiveDateTime,
    course: MergeCourse,
    after: DatabaseModel,
    e: EntryId,
    i: int,
)
    requires
        histories_fit(source),
        histories_fit(after),
        merged(dest, source, now, course, after),
        !dest.entries.contains_key(e),
        source.entries.contains_key(e),
        after.entries.contains_key(e),
        0 <= i < past(source.entries[e]).len(),
    ensures
        i < past(after.entries[e]).len(),
        carried(past(source.entries[e])[i], past(after.entries[e])[i], source, after),
{
    let aligned = aligned_source(course.base, source, course.imports);
    let grown = enlarged(source, course);
    let settled = arranged(source, now, course);
    let copy = course.groups.entries.copies[e];
    lemma_adopted_alike(dest, source, course.translation, course.base);
    lemma_alike(course.base, source, course.imports, course.start);
    lemma_arranged(dest, source, now, course, after);
    assert(course.base.entries.dom().contains(e) == dest.entries.dom().contains(e));
    assert(aligned.entries.contains_key(e));
    assert(settled.entries.contains_key(e));
    assert(entry_created(grown, aligned, e));
    assert(settled.entries[e] == copy);
    assert(imported(aligned.entries[e], copy, source.attachments, course.groups.middle.attachments));
    assert(after.entries[e] == copy);
    lemma_version_carried(dest, source, now, course, after, e, i, i);
}

} // verus!

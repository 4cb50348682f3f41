//! What becomes of attached files and of images.
use vstd::prelude::*;

use crate::datetime::{lemma_time_total, NaiveDateTime};
use crate::db::database::{histories_fit, DatabaseModel};
use crate::db::icon::Icon;
use crate::ids::{AttachmentId, CustomIconId, EntryId, GroupId};
use crate::merge::attachments::{entry_uses, imported, imported_version};
use crate::merge::deletion_laws::{arranged, enlarged, lemma_arranged};
use crate::merge::entries::{entry_created, entry_shared};
use crate::merge::field_laws::{
    later_entry_counts_field_by_field, later_group_counts_field_by_field, ticks, ticks_or,
    time_goes_on,
};
use crate::merge::group_laws::lemma_kept_group;
use crate::merge::icon_imports::{
    aligned_source, brought_as, entry_untouched, group_untouched, imported_icon,
    lemma_adopted_alike, lemma_alike,
};
use crate::merge::icons::{icon_referenced, retargeted_entry, retargeted_group, shown_by};
use crate::merge::outcome_laws::lemma_shared_entry;
use crate::merge::reference_laws::{lemma_use_is_reference, taken_entry_shows_its_image};
use crate::merge::references::{refers_at, Place, Reference};
use crate::merge::{merged, MergeCourse};

verus! {

/// The source's version of an entry is taken over: the destination does not have the entry, or its
/// version is earlier.
pub open spec fn entry_is_taken(
    dest: DatabaseModel,
    source: DatabaseModel,
    now: NaiveDateTime,
    e: EntryId,
) -> bool {
    !dest.entries.contains_key(e) || ticks_or(source.entries[e].times.last_modification, 0) > ticks_or(
        dest.entries[e].times.last_modification,
        ticks(now),
    )
}

/// An attachment that is used after a merge, and was there when the entries were merged, is there.
pub proof fn lemma_used_stays(
    dest: DatabaseModel,
    source: DatabaseModel,
    now: NaiveDateTime,
    course: MergeCourse,
    after: DatabaseModel,
    e: EntryId,
    a: AttachmentId,
)
    requires
        histories_fit(after),
        merged(dest, source, now, course, after),
        after.entries.contains_key(e),
        entry_uses(after.entries[e], a),
        course.groups.middle.attachments.contains_key(a),
    ensures
        after.attachments.contains_key(a),
        after.attachments[a].data == course.groups.middle.attachments[a].data,
{
    lemma_use_is_reference(after, e, a);
    let place = choose|place: Place| refers_at(after.entries, place, Reference::Attachment(a));
    assert(refers_at(course.settled.entries, place, Reference::Attachment(a)));
}

/// An entry that is taken over from the source has its attachments, under the same names and with
/// the same data, protected or not.
pub proof fn taken_entry_has_its_files(
    dest: DatabaseModel,
    source: DatabaseModel,
    now: NaiveDateTime,
    course: MergeCourse,
    after: DatabaseModel,
    e: EntryId,
    name: Seq<char>,
)
    requires
        histories_fit(after),
        merged(dest, source, now, course, after),
        source.entries.contains_key(e),
        after.entries.contains_key(e),
        entry_is_taken(dest, source, now, e),
        source.entries[e].attachments.contains_key(name),
    ensures
        after.entries[e].attachments.contains_key(name),
        source.attachments.contains_key(source.entries[e].attachments[name]),
        after.attachments.contains_key(after.entries[e].attachments[name]),
        after.attachments[after.entries[e].attachments[name]].data
            == source.attachments[source.entries[e].attachments[name]].data,
{
    let aligned = aligned_source(course.base, source, course.imports);
    let grown = enlarged(source, course);
    let settled = arranged(source, now, course);
    let copy = course.groups.entries.copies[e];
    lemma_adopted_alike(dest, source, course.translation, course.base);
    lemma_alike(course.base, source, course.imports, course.start);
    lemma_arranged(dest, source, now, course, after);
    assert(aligned.entries.contains_key(e));
    assert(course.base.entries.dom().contains(e) == dest.entries.dom().contains(e));
    assert(settled.entries.contains_key(e));
    if dest.entries.contains_key(e) {
        let own = retargeted_entry(dest.entries[e], course.translation);
        lemma_shared_entry(dest, source, now, course, after, e);
        later_entry_counts_field_by_field(
            own,
            copy,
            grown.groups.contains_key(source.entries[e].parent),
            now,
        );
        assert(entry_shared(grown, aligned, e));
    } else {
        assert(entry_created(grown, aligned, e));
        assert(settled.entries[e] == copy);
    }
    assert(imported(aligned.entries[e], copy, source.attachments, course.groups.middle.attachments));
    let from = aligned.entries[e].with_history(None);
    assert(from.attachments.contains_key(name));
    assert(copy.with_history(None).attachments.dom() == from.attachments.dom());
    assert(copy.attachments.dom().contains(name));
    let a = copy.attachments[name];
    assert(after.entries[e].attachments == copy.attachments);
    assert(after.entries[e].attachments.contains_key(name));
    assert(after.entries[e].attachments.contains_value(a));
    assert(entry_uses(after.entries[e], a));
    lemma_used_stays(dest, source, now, course, after, e, a);
}

/// An archived version of an entry that only the source has keeps its attachments, under the same
/// names and with the same data.
pub proof fn new_entry_has_its_old_files(
    dest: DatabaseModel,
    source: DatabaseModel,
    now: NaiveDateTime,
    course: MergeCourse,
    after: DatabaseModel,
    e: EntryId,
    i: int,
    name: Seq<char>,
)
    requires
        histories_fit(after),
        merged(dest, source, now, course, after),
        source.entries.contains_key(e),
        !dest.entries.contains_key(e),
        after.entries.contains_key(e),
        source.entries[e].history is Some,
        0 <= i < source.entries[e].history->0.len(),
        source.entries[e].history->0[i].attachments.contains_key(name),
    ensures
        after.entries[e].history is Some,
        i < after.entries[e].history->0.len(),
        after.entries[e].history->0[i].attachments.contains_key(name),
        source.attachments.contains_key(source.entries[e].history->0[i].attachments[name]),
        after.attachments.contains_key(after.entries[e].history->0[i].attachments[name]),
        after.attachments[after.entries[e].history->0[i].attachments[name]].data
            == source.attachments[source.entries[e].history->0[i].attachments[name]].data,
{
    let aligned = aligned_source(course.base, source, course.imports);
    let grown = enlarged(source, course);
    let settled = arranged(source, now, course);
    let copy = course.groups.entries.copies[e];
    lemma_adopted_alike(dest, source, course.translation, course.base);
    lemma_alike(course.base, source, course.imports, course.start);
    lemma_arranged(dest, source, now, course, after);
    assert(aligned.entries.contains_key(e));
    assert(course.base.entries.dom().contains(e) == dest.entries.dom().contains(e));
    assert(settled.entries.contains_key(e));
    assert(entry_created(grown, aligned, e));
    assert(settled.entries[e] == copy);
    assert(imported(aligned.entries[e], copy, source.attachments, course.groups.middle.attachments));
    let from = aligned.entries[e].history->0[i];
    let to = copy.history->0[i];
    assert(imported_version(from, to, source.attachments, course.groups.middle.attachments));
    assert(from.attachments.contains_key(name));
    assert(to.attachments.dom().contains(name));
    let a = to.attachments[name];
    assert(after.entries[e] == copy);
    assert(after.entries[e].history->0[i].attachments.contains_value(a));
    assert(entry_uses(after.entries[e], a));
    lemma_used_stays(dest, source, now, course, after, e, a);
}

/// The data of an attachment of the destination do not change, nor does the identifier under which
/// it has them. The attachment stays as long as a version of an entry uses it.
pub proof fn own_files_stay(
    dest: DatabaseModel,
    source: DatabaseModel,
    now: NaiveDateTime,
    course: MergeCourse,
    after: DatabaseModel,
    a: AttachmentId,
)
    requires
        histories_fit(after),
        merged(dest, source, now, course, after),
        dest.attachments.contains_key(a),
    ensures
        after.attachments.contains_key(a) ==> after.attachments[a].data == dest.attachments[a].data
            && after.attachments[a].id == dest.attachments[a].id,
        forall|e: EntryId, name: Seq<char>| #[trigger]
            after.entries.contains_key(e) && #[trigger] after.entries[e].attachments.contains_key(name)
                && after.entries[e].attachments[name] == a ==> after.attachments.contains_key(a),
{
    assert(course.start.attachments.contains_key(a));
    assert(course.groups.middle.attachments.contains_key(a));
    assert(course.groups.middle.attachments[a] == dest.attachments[a]);
    assert forall|e: EntryId, name: Seq<char>| #[trigger]
        after.entries.contains_key(e) && #[trigger] after.entries[e].attachments.contains_key(name)
            && after.entries[e].attachments[name] == a implies after.attachments.contains_key(a) by {
        assert(after.entries[e].attachments.contains_value(a));
        assert(entry_uses(after.entries[e], a));
        lemma_used_stays(dest, source, now, course, after, e, a);
    }
}

/// What is new among the attachments after a merge has its data from the source, and no other
/// attachment has the same data: equal files are shared.
pub proof fn new_files_are_shared(
    dest: DatabaseModel,
    source: DatabaseModel,
    now: NaiveDateTime,
    course: MergeCourse,
    after: DatabaseModel,
    a: AttachmentId,
    b: AttachmentId,
)
    requires
        merged(dest, source, now, course, after),
        after.attachments.contains_key(a),
        !dest.attachments.contains_key(a),
    ensures
        exists|s: AttachmentId| #[trigger]
            source.attachments.contains_key(s) && source.attachments[s].data == after.attachments[a].data,
        after.attachments.contains_key(b) && a != b ==> after.attachments[a].data != after.attachments[b].data,
{
    let middle = course.groups.middle.attachments;
    assert(middle.contains_key(a));
    if after.attachments.contains_key(b) {
        assert(middle.contains_key(b));
    }
}

/// An index says which versions of which entries use an attachment, and nothing else is in it. An
/// attachment that none uses is not kept.
pub proof fn index_of_files_is_right(
    dest: DatabaseModel,
    source: DatabaseModel,
    now: NaiveDateTime,
    course: MergeCourse,
    after: DatabaseModel,
    a: AttachmentId,
)
    requires
        merged(dest, source, now, course, after),
        after.attachments.contains_key(a),
    ensures
        forall|e: EntryId|
            #![trigger after.attachments[a].entries.contains((e, None::<usize>))]
            after.attachments[a].entries.contains((e, None::<usize>)) <==> after.entries.contains_key(e)
                && after.entries[e].attachments.contains_value(a),
        forall|e: EntryId, i: usize|
            #![trigger after.attachments[a].entries.contains((e, Some(i)))]
            after.attachments[a].entries.contains((e, Some(i))) <==> after.entries.contains_key(e)
                && after.entries[e].history is Some && i < after.entries[e].history->0.len()
                && after.entries[e].history->0[i as int].attachments.contains_value(a),
        exists|place: (EntryId, Option<usize>)| after.attachments[a].entries.contains(place),
{
    let entries = course.settled.entries;
    let place = choose|place: Place| refers_at(entries, place, Reference::Attachment(a));
    assert(after.attachments[a].entries.contains(place));
    assert forall|e: EntryId| #[trigger] after.attachments[a].entries.contains((e, None::<usize>)) <==> after.entries.contains_key(
        e,
    ) && after.entries[e].attachments.contains_value(a) by {
        assert(after.attachments[a].entries.contains((e, None::<usize>)) == refers_at(
            entries,
            (e, None::<usize>),
            Reference::Attachment(a),
        ));
        if after.entries.contains_key(e) && after.entries[e].attachments.contains_value(a) {
            let name = choose|name: Seq<char>|
                after.entries[e].attachments.contains_key(name) && after.entries[e].attachments[name] == a;
            assert(after.entries[e].attachments.contains_key(name));
        }
    }
    assert forall|e: EntryId, i: usize| #[trigger]
        after.attachments[a].entries.contains((e, Some(i))) <==> after.entries.contains_key(e)
            && after.entries[e].history is Some && i < after.entries[e].history->0.len()
            && after.entries[e].history->0[i as int].attachments.contains_value(a) by {
        assert(after.attachments[a].entries.contains((e, Some(i))) == refers_at(
            entries,
            (e, Some(i)),
            Reference::Attachment(a),
        ));
        if after.entries.contains_key(e) && after.entries[e].history is Some && i < after.entries[e].history->0.len()
            && after.entries[e].history->0[i as int].attachments.contains_value(a) {
            let all = after.entries[e].history->0[i as int].attachments;
            let name = choose|name: Seq<char>| all.contains_key(name) && all[name] == a;
            assert(all.contains_key(name));
        }
    }
}

/// An index says which versions of which entries, and which groups, show a custom icon, and nothing
/// else is in it. An icon that nothing shows is not kept.
pub proof fn index_of_images_is_right(
    dest: DatabaseModel,
    source: DatabaseModel,
    now: NaiveDateTime,
    course: MergeCourse,
    after: DatabaseModel,
    i: CustomIconId,
)
    requires
        merged(dest, source, now, course, after),
        after.custom_icons.contains_key(i),
    ensures
        forall|e: EntryId|
            #![trigger after.custom_icons[i].entries.contains((e, None::<usize>))]
            after.custom_icons[i].entries.contains((e, None::<usize>)) <==> after.entries.contains_key(e)
                && after.entries[e].icon == Some(Icon::Custom(i)),
        forall|e: EntryId, k: usize|
            #![trigger after.custom_icons[i].entries.contains((e, Some(k)))]
            after.custom_icons[i].entries.contains((e, Some(k))) <==> after.entries.contains_key(e)
                && after.entries[e].history is Some && k < after.entries[e].history->0.len()
                && after.entries[e].history->0[k as int].icon == Some(Icon::Custom(i)),
        forall|g: GroupId| #[trigger]
            after.custom_icons[i].groups.contains(g) <==> after.groups.contains_key(g) && after.groups[g].icon
                == Some(Icon::Custom(i)),
        (exists|place: (EntryId, Option<usize>)| after.custom_icons[i].entries.contains(place)) || (exists|g: GroupId|
            after.custom_icons[i].groups.contains(g)),
{
    let entries = course.settled.entries;
    assert(icon_referenced(course.settled, i));
    if exists|place: Place| refers_at(entries, place, Reference::Icon(i)) {
        let place = choose|place: Place| refers_at(entries, place, Reference::Icon(i));
        assert(after.custom_icons[i].entries.contains(place));
    } else {
        let g = choose|g: GroupId| shown_by(course.settled.groups, g, i);
        assert(after.custom_icons[i].groups.contains(g));
    }
}

/// The images of the destination, their names and their dates do not change, nor do the identifiers
/// under which it has them.
pub proof fn own_image_is_left_alone(
    dest: DatabaseModel,
    source: DatabaseModel,
    now: NaiveDateTime,
    course: MergeCourse,
    after: DatabaseModel,
    i: CustomIconId,
)
    requires
        merged(dest, source, now, course, after),
        dest.custom_icons.contains_key(i),
        after.custom_icons.contains_key(i),
    ensures
        after.custom_icons[i].data == dest.custom_icons[i].data,
        after.custom_icons[i].name == dest.custom_icons[i].name,
        after.custom_icons[i].last_modification_time == dest.custom_icons[i].last_modification_time,
        after.custom_icons[i].id == dest.custom_icons[i].id,
{
    assert(course.base.custom_icons.contains_key(i));
    assert(course.start.custom_icons.contains_key(i));
}

/// What is new among the images after a merge is an image of the source, with its name and its date.
/// It has the identifier that it has there, unless another image of the destination has that, and no
/// other image is the same: equal images are shared.
pub proof fn new_image_comes_from_the_source(
    dest: DatabaseModel,
    source: DatabaseModel,
    now: NaiveDateTime,
    course: MergeCourse,
    after: DatabaseModel,
    i: CustomIconId,
    j: CustomIconId,
)
    requires
        merged(dest, source, now, course, after),
        after.custom_icons.contains_key(i),
        !dest.custom_icons.contains_key(i),
    ensures
        exists|s: CustomIconId| #[trigger]
            source.custom_icons.contains_key(s) && after.custom_icons[i].data == source.custom_icons[s].data
                && after.custom_icons[i].name == source.custom_icons[s].name
                && after.custom_icons[i].last_modification_time == source.custom_icons[s].last_modification_time
                && (s == i || course.base.custom_icons.contains_key(s)),
        after.custom_icons.contains_key(j) && i != j ==> after.custom_icons[i].data != after.custom_icons[j].data,
{
    let base = course.base.custom_icons;
    let start = course.start.custom_icons;
    assert(start.contains_key(i));
    if base.contains_key(i) {
        assert(source.custom_icons.contains_key(i));
        assert(start[i] == base[i]);
    } else {
        let s = choose|s: CustomIconId| #[trigger]
            brought_as(s, i, base, start, source.custom_icons, course.imports);
        assert(source.custom_icons.contains_key(s));
    }
    if after.custom_icons.contains_key(j) && i != j {
        assert(start.contains_key(j));
        if base.contains_key(i) && !base.contains_key(j) {
            assert(start[j].data != start[i].data);
        }
    }
}

/// An entry that is taken over from the source shows what it shows there: the same built-in icon, or
/// none, or the same image.
pub proof fn taken_entry_shows_what_it_shows_there(
    dest: DatabaseModel,
    source: DatabaseModel,
    now: NaiveDateTime,
    course: MergeCourse,
    after: DatabaseModel,
    e: EntryId,
)
    requires
        merged(dest, source, now, course, after),
        source.entries.contains_key(e),
        after.entries.contains_key(e),
        entry_is_taken(dest, source, now, e),
    ensures
        match source.entries[e].icon {
            Some(Icon::Custom(i)) => source.custom_icons.contains_key(i) ==> (after.entries[e].icon matches Some(
                Icon::Custom(j),
            ) && after.custom_icons.contains_key(j) && after.custom_icons[j].data == source.custom_icons[i].data),
            icon => after.entries[e].icon == icon,
        },
{
    let aligned = aligned_source(course.base, source, course.imports);
    let grown = enlarged(source, course);
    let settled = arranged(source, now, course);
    let copy = course.groups.entries.copies[e];
    let theirs = source.entries[e];
    lemma_adopted_alike(dest, source, course.translation, course.base);
    lemma_alike(course.base, source, course.imports, course.start);
    lemma_arranged(dest, source, now, course, after);
    assert(course.base.entries.dom().contains(e) == dest.entries.dom().contains(e));
    assert(aligned.entries.contains_key(e));
    assert(settled.entries.contains_key(e));
    let epoch = NaiveDateTime::spec_epoch();
    let s = match theirs.times.last_modification {
        Some(t) => t,
        None => epoch,
    };
    time_goes_on(s, epoch);
    if dest.entries.contains_key(e) {
        let d = match dest.entries[e].times.last_modification {
            Some(t) => t,
            None => now,
        };
        time_goes_on(s, d);
        let own = retargeted_entry(dest.entries[e], course.translation);
        lemma_shared_entry(dest, source, now, course, after, e);
        later_entry_counts_field_by_field(own, copy, grown.groups.contains_key(theirs.parent), now);
        assert(entry_shared(grown, aligned, e));
        assert(!entry_untouched(course.base, source, e)) by {
            lemma_time_total(s, s);
        }
    } else {
        assert(entry_created(grown, aligned, e));
        assert(settled.entries[e] == copy);
    }
    assert(imported(aligned.entries[e], copy, source.attachments, course.groups.middle.attachments));
    assert(copy.with_history(None).icon == aligned.entries[e].with_history(None).icon);
    match theirs.icon {
        Some(Icon::Custom(i)) => {
            if source.custom_icons.contains_key(i) {
                taken_entry_shows_its_image(dest, source, now, course, after, e, i);
            }
        },
        _ => {},
    }
}

/// An entry whose own version stays shows what it showed: the same built-in icon, or none, or the
/// same custom icon, if the destination has it.
pub proof fn own_entry_shows_what_it_showed(
    dest: DatabaseModel,
    source: DatabaseModel,
    now: NaiveDateTime,
    course: MergeCourse,
    after: DatabaseModel,
    e: EntryId,
)
    requires
        merged(dest, source, now, course, after),
        dest.entries.contains_key(e),
        after.entries.contains_key(e),
        !source.entries.contains_key(e) || !entry_is_taken(dest, source, now, e),
        dest.entries[e].icon matches Some(Icon::Custom(i)) ==> dest.custom_icons.contains_key(i),
    ensures
        after.entries[e].icon == dest.entries[e].icon,
{
    let own = retargeted_entry(dest.entries[e], course.translation);
    lemma_adopted_alike(dest, source, course.translation, course.base);
    lemma_alike(course.base, source, course.imports, course.start);
    lemma_arranged(dest, source, now, course, after);
    if source.entries.contains_key(e) {
        let copy = course.groups.entries.copies[e];
        lemma_shared_entry(dest, source, now, course, after, e);
        later_entry_counts_field_by_field(
            own,
            copy,
            enlarged(source, course).groups.contains_key(source.entries[e].parent),
            now,
        );
    } else {
        assert(arranged(source, now, course).entries[e] == own);
    }
    match dest.entries[e].icon {
        Some(Icon::Custom(i)) => {
            assert(!course.translation.contains_key(i));
        },
        _ => {},
    }
}

/// A group that is taken over from the source shows what it shows there: the same built-in icon, or
/// none, or the same image. One whose own version stays shows what it showed.
pub proof fn shared_group_shows_what_it_is_to_show(
    dest: DatabaseModel,
    source: DatabaseModel,
    now: NaiveDateTime,
    course: MergeCourse,
    after: DatabaseModel,
    g: GroupId,
)
    requires
        source.wf(),
        merged(dest, source, now, course, after),
        source.groups.contains_key(g),
        after.groups.contains_key(g),
    ensures
        ({
            let own = dest.groups[g];
            let theirs = source.groups[g];
            let target = theirs.parent is Some && after.groups.contains_key(theirs.parent->0);
            let moves = match (own.times.location_changed, theirs.times.location_changed) {
                (Some(d), Some(s)) => own.parent != theirs.parent && ticks(s) > ticks(d),
                _ => false,
            };
            let later = ticks_or(theirs.times.last_modification, 0) > ticks_or(
                own.times.last_modification,
                ticks(now),
            );
            let taken = !dest.groups.contains_key(g) || (later && (moves ==> target));
            &&& taken ==> match theirs.icon {
                Some(Icon::Custom(i)) => source.custom_icons.contains_key(i) ==> (after.groups[g].icon matches Some(
                    Icon::Custom(j),
                ) && after.custom_icons.contains_key(j) && after.custom_icons[j].data == source.custom_icons[i].data),
                icon => after.groups[g].icon == icon,
            }
            &&& !taken && (own.icon matches Some(Icon::Custom(i)) ==> dest.custom_icons.contains_key(i))
                ==> after.groups[g].icon == own.icon
        }),
{
    let aligned = aligned_source(course.base, source, course.imports);
    let theirs = aligned.groups[g];
    let own = retargeted_group(dest.groups[g], course.translation);
    let target = source.groups[g].parent is Some && after.groups.contains_key(source.groups[g].parent->0);
    lemma_adopted_alike(dest, source, course.translation, course.base);
    lemma_alike(course.base, source, course.imports, course.start);
    lemma_kept_group(dest, source, now, course, after, g);
    assert(course.base.groups.dom().contains(g) == dest.groups.dom().contains(g));
    later_group_counts_field_by_field(own, theirs, target, now);
    later_group_counts_field_by_field(theirs, theirs, target, now);
    let epoch = NaiveDateTime::spec_epoch();
    let s = match source.groups[g].times.last_modification {
        Some(t) => t,
        None => epoch,
    };
    time_goes_on(s, epoch);
    lemma_time_total(s, s);
    match source.groups[g].icon {
        Some(Icon::Custom(i)) => {
            assert(shown_by(source.groups, g, i));
            assert(icon_referenced(source, i));
            assert(course.imports.contains_key(i));
            assert(imported_icon(
                i,
                course.imports[i],
                course.base.custom_icons,
                course.start.custom_icons,
                source.custom_icons,
            ));
            if source.custom_icons.contains_key(i) && after.groups[g].icon == theirs.icon && !group_untouched(
                course.base,
                source,
                g,
            ) {
                let j = course.imports[i]->0;
                assert(course.start.custom_icons.contains_key(j));
                assert(course.settled.custom_icons.contains_key(j));
                assert(shown_by(course.settled.groups, g, j));
            }
        },
        _ => {},
    }
    match dest.groups[g].icon {
        Some(Icon::Custom(i)) => {
            if dest.custom_icons.contains_key(i) {
                assert(!course.translation.contains_key(i));
            }
        },
        _ => {},
    }
}

/// An entry or a group that showed an icon that the destination did not have shows the source's image
/// under that identifier, if the source has one, and otherwise none.
pub proof fn missing_image_is_found_or_dropped(
    dest: DatabaseModel,
    source: DatabaseModel,
    now: NaiveDateTime,
    course: MergeCourse,
    after: DatabaseModel,
    e: EntryId,
    i: CustomIconId,
)
    requires
        histories_fit(dest),
        merged(dest, source, now, course, after),
        dest.entries.contains_key(e),
        !source.entries.contains_key(e),
        after.entries.contains_key(e),
        dest.entries[e].icon == Some(Icon::Custom(i)),
        !dest.custom_icons.contains_key(i),
    ensures
        !source.custom_icons.contains_key(i) ==> after.entries[e].icon is None,
        source.custom_icons.contains_key(i) ==> (after.entries[e].icon matches Some(Icon::Custom(j))
            && after.custom_icons.contains_key(j) && after.custom_icons[j].data == source.custom_icons[i].data),
{
    let own = retargeted_entry(dest.entries[e], course.translation);
    lemma_adopted_alike(dest, source, course.translation, course.base);
    lemma_alike(course.base, source, course.imports, course.start);
    lemma_arranged(dest, source, now, course, after);
    assert(arranged(source, now, course).entries[e] == own);
    assert(refers_at(dest.entries, (e, None::<usize>), Reference::Icon(i)));
    assert(icon_referenced(dest, i));
    assert(course.translation.contains_key(i));
    if source.custom_icons.contains_key(i) {
        let j = course.translation[i]->0;
        assert(course.base.custom_icons.contains_key(j));
        assert(course.start.custom_icons.contains_key(j));
        assert(course.settled.custom_icons.contains_key(j));
        assert(refers_at(course.settled.entries, (e, None::<usize>), Reference::Icon(j)));
        assert(icon_referenced(course.settled, j));
    }
}

} // verus!

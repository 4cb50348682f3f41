//! When a merge succeeds and when it does not.
use vstd::prelude::*;

use crate::datetime::NaiveDateTime;
use crate::db::database::{parents, DatabaseModel};
use crate::db::entry::EntryModel;
use crate::db::icon::Icon;
use crate::ids::{CustomIconId, EntryId, GroupId};
use crate::merge::arrivals::{group_created, with_new_groups};
use crate::merge::attachments::{entry_uses, imported, lemma_import_uses, pool_grown, Pool};
use crate::merge::deletion_laws::lemma_created_in_source;
use crate::merge::diverge::group_substance;
use crate::merge::entries::{entries_refused, entry_created, entry_shared, shared_conflict};
use crate::merge::group_changes::{
    group_moves, group_shared, merged_groups, place_present, shared_group_conflict,
};
use crate::merge::groups::groups_merge_refused;
use crate::merge::icon_imports::{
    aligned_source, icons_aligned, imported_icon, lemma_alike, lemma_same_uses,
};
use crate::merge::icons::{
    icon_missing, icon_referenced, icons_adopted, lemma_nothing_to_adopt, retargeted, shown_by,
    Translation,
};
use crate::merge::log::MergeError;
use crate::merge::references::{refers_at, Reference};
use crate::merge::settled::attachments_resolve;
use crate::merge::{merge_refused, mergeable, merged, MergeCourse};

verus! {

/// Where the destination's own icon stands for an icon of the source, it does so in any case.
pub proof fn lemma_same_stand_in(
    dest: DatabaseModel,
    source: DatabaseModel,
    imports: Translation,
    start: DatabaseModel,
    other_imports: Translation,
    other_start: DatabaseModel,
    raw: Option<Icon>,
    own: Option<Icon>,
)
    requires
        icons_aligned(dest, source, imports, start),
        icons_aligned(dest, source, other_imports, other_start),
        raw matches Some(Icon::Custom(x)) ==> icon_referenced(source, x),
        own matches Some(Icon::Custom(x)) ==> dest.custom_icons.contains_key(x),
        retargeted(raw, imports) == own,
    ensures
        retargeted(raw, other_imports) == own,
{
    if raw is Some && raw->0 is Custom {
        let x = raw->0->Custom_0;
        assert(imports.contains_key(x) && other_imports.contains_key(x));
        let d = dest.custom_icons;
        let s = source.custom_icons;
        assert(imported_icon(x, imports[x], d, start.custom_icons, s));
        assert(imported_icon(x, other_imports[x], d, other_start.custom_icons, s));
        if s.contains_key(x) {
            let j = imports[x]->0;
            let k = other_imports[x]->0;
            let table = other_start.custom_icons;
            assert(d.contains_key(j));
            assert(table.contains_key(j) && table[j].data == s[x].data);
            assert(table.contains_key(k) && table[k].data == s[x].data);
        }
    }
}

/// A destination's entry that agrees with the source's agrees with it under whatever identifiers
/// new attachments and icons are kept.
proof fn lemma_agreement_is_settled(
    dest: DatabaseModel,
    source: DatabaseModel,
    imports: Translation,
    start: DatabaseModel,
    other_imports: Translation,
    other_start: DatabaseModel,
    now: NaiveDateTime,
    e: EntryId,
    copy: EntryModel,
    pool: Pool,
    other_copy: EntryModel,
    other_pool: Pool,
)
    requires
        icons_aligned(dest, source, imports, start),
        icons_aligned(dest, source, other_imports, other_start),
        forall|i: CustomIconId| !#[trigger] icon_missing(dest, i),
        attachments_resolve(dest),
        entry_shared(dest, source, e),
        imported(aligned_source(dest, source, imports).entries[e], copy, source.attachments, pool),
        pool_grown(dest.attachments, pool, source.attachments),
        imported(aligned_source(dest, source, other_imports).entries[e], other_copy, source.attachments, other_pool),
        pool_grown(dest.attachments, other_pool, source.attachments),
        !shared_conflict(dest, source, copy, now, e),
    ensures
        !shared_conflict(dest, source, other_copy, now, e),
{
    let own = dest.entries[e];
    let from = aligned_source(dest, source, imports).entries[e].with_history(None);
    let other_from = aligned_source(dest, source, other_imports).entries[e].with_history(None);
    assert(other_from == EntryModel { icon: other_from.icon, ..from });
    assert(copy.with_history(None) == EntryModel { attachments: copy.attachments, ..from });
    assert(other_copy.with_history(None) == EntryModel { attachments: other_copy.attachments, ..other_from });
    if own.icon == copy.icon {
        if own.icon is Some && own.icon->0 is Custom {
            let x = own.icon->0->Custom_0;
            assert(refers_at(dest.entries, (e, None::<usize>), Reference::Icon(x)));
            assert(!icon_missing(dest, x));
        }
        let raw = source.entries[e].icon;
        if raw is Some && raw->0 is Custom {
            assert(refers_at(source.entries, (e, None::<usize>), Reference::Icon(raw->0->Custom_0)));
        }
        if from.icon == retargeted(raw, imports) {
            lemma_same_stand_in(dest, source, imports, start, other_imports, other_start, raw, own.icon);
        }
        assert(other_copy.icon == own.icon);
    }
    if own.attachments == copy.attachments {
        assert forall|name: Seq<char>| #[trigger] copy.attachments.contains_key(name) implies other_copy.attachments[name]
            == copy.attachments[name] by {
            let a = copy.attachments[name];
            let b = other_copy.attachments[name];
            assert(from.attachments.contains_key(name));
            assert(other_from.attachments.contains_key(name));
            assert(own.attachments.contains_value(a));
            assert(entry_uses(own, a));
            assert(dest.attachments.contains_key(a));
            assert(other_pool[b].data == other_pool[a].data);
            if dest.attachments.contains_key(b) {
                assert(a == b);
            }
        }
        assert(other_copy.attachments =~= copy.attachments);
    }
}

/// Groups that agree do so under whatever identifiers new icons are kept, and they form the same
/// tree.
proof fn lemma_group_agreement_is_settled(
    dest: DatabaseModel,
    source: DatabaseModel,
    imports: Translation,
    start: DatabaseModel,
    other_imports: Translation,
    other_start: DatabaseModel,
    now: NaiveDateTime,
)
    requires
        source.wf(),
        icons_aligned(dest, source, imports, start),
        icons_aligned(dest, source, other_imports, other_start),
        forall|i: CustomIconId| !#[trigger] icon_missing(dest, i),
    ensures
        ({
            let aligned = aligned_source(dest, source, imports);
            let other = aligned_source(dest, source, other_imports);
            let groups = with_new_groups(start, aligned).groups;
            let other_groups = with_new_groups(other_start, other).groups;
            &&& forall|g: GroupId|
                !shared_group_conflict(groups, aligned, now, g) ==> !#[trigger] shared_group_conflict(
                    other_groups,
                    other,
                    now,
                    g,
                )
            &&& forall|g: GroupId| #[trigger] group_moves(other_groups, other, g) == group_moves(groups, aligned, g)
            &&& parents(merged_groups(other_groups, other, now)) == parents(merged_groups(groups, aligned, now))
        }),
{
    let aligned = aligned_source(dest, source, imports);
    let other = aligned_source(dest, source, other_imports);
    let groups = with_new_groups(start, aligned).groups;
    let other_groups = with_new_groups(other_start, other).groups;
    lemma_alike(dest, source, imports, start);
    lemma_alike(dest, source, other_imports, other_start);
    assert forall|g: GroupId| #[trigger] groups.contains_key(g) <==> other_groups.contains_key(g) by {
        assert(group_created(start, aligned, g)
            == group_created(other_start, other, g));
    }
    assert forall|g: GroupId| source.groups.contains_key(g) implies #[trigger] place_present(
        groups,
        aligned.groups[g],
    ) == place_present(other_groups, other.groups[g]) by {
        assert(aligned.groups.contains_key(g) && other.groups.contains_key(g));
    }
    assert forall|g: GroupId| groups.contains_key(g) implies #[trigger] groups[g].parent == other_groups[g].parent
        && groups[g].times == other_groups[g].times && groups[g].id == other_groups[g].id by {
        if !dest.groups.contains_key(g) {
            lemma_created_in_source(start, aligned, g);
            assert(source.groups.contains_key(g));
            assert(aligned.groups.contains_key(g) && other.groups.contains_key(g));
        }
    }
    assert forall|g: GroupId| !shared_group_conflict(groups, aligned, now, g) implies !#[trigger] shared_group_conflict(
        other_groups,
        other,
        now,
        g,
    ) by {
        if group_shared(other_groups, other, g) {
            assert(source.groups.contains_key(g));
            assert(place_present(groups, aligned.groups[g]) == place_present(other_groups, other.groups[g]));
            assert(groups[g].parent == other_groups[g].parent);
            if dest.groups.contains_key(g) {
                let own = dest.groups[g];
                if group_substance(own) == group_substance(aligned.groups[g]) {
                    assert(group_substance(own).icon == own.icon);
                    assert(group_substance(aligned.groups[g]).icon == aligned.groups[g].icon);
                    if own.icon is Some && own.icon->0 is Custom {
                        assert(shown_by(dest.groups, g, own.icon->0->Custom_0));
                        assert(!icon_missing(dest, own.icon->0->Custom_0));
                    }
                    let raw = source.groups[g].icon;
                    if raw is Some && raw->0 is Custom {
                        assert(shown_by(source.groups, g, raw->0->Custom_0));
                    }
                    if aligned.groups[g].icon == retargeted(raw, imports) {
                        lemma_same_stand_in(dest, source, imports, start, other_imports, other_start, raw, own.icon);
                    }
                    assert(other.groups[g].icon == own.icon);
                    assert(group_substance(own) == group_substance(other.groups[g]));
                }
            } else {
                assert(other_groups[g] == other.groups[g]);
            }
        }
    }
    assert forall|g: GroupId| #[trigger] group_moves(other_groups, other, g) == group_moves(groups, aligned, g) by {
        if source.groups.contains_key(g) {
            assert(place_present(groups, aligned.groups[g]) == place_present(other_groups, other.groups[g]));
        }
        if groups.contains_key(g) {
            assert(groups[g].parent == other_groups[g].parent);
        }
    }
    let tree = parents(merged_groups(groups, aligned, now));
    let other_tree = parents(merged_groups(other_groups, other, now));
    assert forall|g: GroupId| tree.contains_key(g) implies other_tree.contains_key(g) && tree[g] == other_tree[g] by {
        assert(groups.contains_key(g));
        assert(groups[g].parent == other_groups[g].parent);
        if source.groups.contains_key(g) {
            assert(place_present(groups, aligned.groups[g]) == place_present(other_groups, other.groups[g]));
        }
    }
    assert(other_tree =~= tree);
}

/// A merge that can succeed is not refused, whatever the order in which the tables are walked.
///
/// The references of the destination resolve and no data and no image are kept twice: of two
/// attachments with the same data, the order of the walk would pick the one under which the source's
/// is kept.
pub proof fn accepted_merge_is_not_refused(
    dest: DatabaseModel,
    source: DatabaseModel,
    now: NaiveDateTime,
    course: MergeCourse,
    after: DatabaseModel,
    error: MergeError,
)
    requires
        mergeable(dest, source),
        attachments_resolve(dest),
        forall|i: CustomIconId| !#[trigger] icon_missing(dest, i),
        merged(dest, source, now, course, after),
    ensures
        !merge_refused(dest, source, now, error),
{
    let imports = course.imports;
    lemma_nothing_to_adopt(dest, source, course.translation, course.base);
    assert forall|translation: Translation, base: DatabaseModel, other_imports: Translation, other_start: DatabaseModel|
        #[trigger] icons_adopted(dest, source, translation, base) && #[trigger] icons_aligned(
            base,
            source,
            other_imports,
            other_start,
        ) implies !groups_merge_refused(other_start, aligned_source(base, source, other_imports), now, error) by {
        lemma_nothing_to_adopt(dest, source, translation, base);
        lemma_entries_accepted(dest, source, now, course, after, other_imports, other_start, error);
        lemma_group_agreement_is_settled(dest, source, imports, course.start, other_imports, other_start, now);
    }
}

/// Entries that can be merged are not refused, whatever stands for the icons of the source.
proof fn lemma_entries_accepted(
    dest: DatabaseModel,
    source: DatabaseModel,
    now: NaiveDateTime,
    course: MergeCourse,
    after: DatabaseModel,
    other_imports: Translation,
    other_start: DatabaseModel,
    error: MergeError,
)
    requires
        attachments_resolve(dest),
        forall|i: CustomIconId| !#[trigger] icon_missing(dest, i),
        merged(dest, source, now, course, after),
        icons_aligned(dest, source, other_imports, other_start),
    ensures
        ({
            let other = aligned_source(dest, source, other_imports);
            !entries_refused(with_new_groups(other_start, other), other, now, error)
        }),
{
    let imports = course.imports;
    lemma_nothing_to_adopt(dest, source, course.translation, course.base);
    let aligned = aligned_source(dest, source, imports);
    let middle = course.groups.middle;
    let copies = course.groups.entries.copies;
    let grown = with_new_groups(course.start, aligned);
    let other = aligned_source(dest, source, other_imports);
    let other_grown = with_new_groups(other_start, other);
    lemma_alike(dest, source, imports, course.start);
    lemma_alike(dest, source, other_imports, other_start);
    if entries_refused(other_grown, other, now, error) {
        match error {
            MergeError::AttachmentNotFound(a) => {
                let e = choose|e: EntryId|
                    (entry_shared(other_grown, other, e) || entry_created(other_grown, other, e)) && #[trigger] entry_uses(
                        other.entries[e],
                        a,
                    );
                assert(source.entries.contains_key(e));
                assert(aligned.entries.contains_key(e) && other.entries.contains_key(e));
                let p = source.entries[e].parent;
                assert(group_created(course.start, aligned, p) == group_created(other_start, other, p));
                assert(entry_shared(grown, aligned, e) || entry_created(grown, aligned, e));
                lemma_import_uses(aligned.entries[e], copies[e], source.attachments, middle.attachments);
                lemma_same_uses(dest, source, imports, dest, other_imports, e);
                assert(entry_uses(aligned.entries[e], a));
            },
            MergeError::EntryModificationTimeNotUpdated(e) => {
                let (copy, there) = choose|copy: EntryModel, there: DatabaseModel|
                    {
                        &&& #[trigger] imported(other.entries[e], copy, other.attachments, there.attachments)
                        &&& pool_grown(other_grown.attachments, there.attachments, other.attachments)
                        &&& shared_conflict(other_grown, other, copy, now, e)
                    };
                assert(source.entries.contains_key(e));
                assert(aligned.entries.contains_key(e));
                assert(entry_shared(grown, aligned, e));
                assert(!shared_conflict(grown, aligned, copies[e], now, e));
                lemma_agreement_is_settled(
                    dest,
                    source,
                    imports,
                    course.start,
                    other_imports,
                    other_start,
                    now,
                    e,
                    copies[e],
                    middle.attachments,
                    copy,
                    there.attachments,
                );
            },
            _ => {},
        }
    }
}

} // verus!

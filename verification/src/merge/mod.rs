//! Merging one version of a database into another.
pub mod again;
pub mod archive_laws;
pub mod arrivals;
pub mod attachments;
pub mod conflict_laws;
pub mod deletion_laws;
pub mod departures;
pub mod diverge;
pub mod entries;
pub mod event_laws;
pub mod field_laws;
pub mod group_changes;
pub mod group_event_laws;
pub mod group_laws;
pub mod group_removal_laws;
pub mod group_wish_laws;
pub mod groups;
pub mod history;
pub mod history_laws;
pub mod icon_imports;
pub mod icons;
pub mod image_laws;
pub mod index_laws;
pub mod log;
pub mod outcome_laws;
pub mod past_laws;
pub mod reference_laws;
pub mod references;
pub mod refusal_laws;
pub mod report_laws;
pub mod settled;
pub mod version_laws;
pub mod warning_laws;

use vstd::prelude::*;

use crate::datetime::NaiveDateTime;
use crate::db::database::{Database, DatabaseModel};
use crate::merge::arrivals::group_created;
use crate::merge::attachments::{indexed_attachments, rebuild_attachment_references};
use crate::merge::groups::{
    groups_merge_refused, groups_merged, groups_notes, is_moment, merge_groups, GroupsCourse,
};
use crate::merge::icon_imports::{
    align_custom_icons, aligned_source, icons_aligned, lemma_adopted_alike, lemma_alike,
};
use crate::merge::icons::{
    adopt_source_custom_icons, icons_adopted, indexed_icons, rebuild_custom_icon_references,
    Translation,
};
use crate::merge::log::{group_log, LogModel, MergeError, MergeLog};

verus! {

broadcast use group_log;

/// What a merge leaves open: the identifiers under which the destination keeps attachments and
/// icons of the source, and the order in which the tables are walked.
pub struct MergeCourse {
    /// What is shown in place of icons that the destination showed without having them.
    pub translation: Translation,
    /// The destination once it has these icons.
    pub base: DatabaseModel,
    /// What stands in the destination for the icons that the source shows.
    pub imports: Translation,
    /// The destination once it has these icons too.
    pub start: DatabaseModel,
    pub groups: GroupsCourse,
    /// The destination once groups and entries are merged.
    pub settled: DatabaseModel,
}

/// A database without the attachments and custom icons to which nothing refers, and with the
/// places that refer to the others on record.
pub open spec fn tidied(db: DatabaseModel) -> DatabaseModel {
    DatabaseModel { attachments: indexed_attachments(db), custom_icons: indexed_icons(db), ..db }
}

/// The source was merged into the destination.
pub open spec fn merged(
    dest: DatabaseModel,
    source: DatabaseModel,
    now: NaiveDateTime,
    course: MergeCourse,
    after: DatabaseModel,
) -> bool {
    let aligned = aligned_source(course.base, source, course.imports);
    &&& icons_adopted(dest, source, course.translation, course.base)
    &&& icons_aligned(course.base, source, course.imports, course.start)
    &&& groups_merged(course.start, aligned, now, course.groups, course.settled)
    &&& after == tidied(course.settled)
}

/// What a merge reports.
pub open spec fn merge_notes(source: DatabaseModel, now: NaiveDateTime, course: MergeCourse) -> LogModel {
    groups_notes(course.start, aligned_source(course.base, source, course.imports), now, course.groups)
}

/// Why the source could not be merged into the destination.
pub open spec fn merge_refused(
    dest: DatabaseModel,
    source: DatabaseModel,
    now: NaiveDateTime,
    error: MergeError,
) -> bool {
    exists|translation: Translation, base: DatabaseModel, imports: Translation, start: DatabaseModel|
        {
            &&& #[trigger] icons_adopted(dest, source, translation, base)
            &&& #[trigger] icons_aligned(base, source, imports, start)
            &&& groups_merge_refused(start, aligned_source(base, source, imports), now, error)
        }
}

/// A merge can place the groups that it adds: climbing from them in the source leads to a group
/// that the destination has.
pub open spec fn mergeable(dest: DatabaseModel, source: DatabaseModel) -> bool {
    &&& dest.wf()
    &&& source.wf()
    &&& !group_created(dest, source, source.root)
}

impl Database {
    /// Merges another version of the same database into this one.
    ///
    /// Entries and groups are recognised by their identifiers.
    pub fn merge(&mut self, other: &Database) -> (result: Result<MergeLog, MergeError>)
        requires
            mergeable(old(self)@, other@),
        ensures
            final(self)@.wf(),
            final(self)@.root == old(self)@.root,
            match result {
                Ok(log) => exists|now: NaiveDateTime, course: MergeCourse|
                    {
                        &&& !NaiveDateTime::spec_epoch().is_after(now)
                        &&& #[trigger] merged(old(self)@, other@, now, course, final(self)@)
                        &&& log@ == merge_notes(other@, now, course)
                    },
                Err(error) => exists|now: NaiveDateTime|
                    !NaiveDateTime::spec_epoch().is_after(now) && #[trigger] merge_refused(
                        old(self)@,
                        other@,
                        now,
                        error,
                    ),
            },
    {
        self.merge_with(other, None)
    }

    /// Merges another version of the same database into this one. What this database has without
    /// a modification time counts as modified at the given moment.
    pub fn merge_at(&mut self, other: &Database, now: NaiveDateTime) -> (result: Result<MergeLog, MergeError>)
        requires
            mergeable(old(self)@, other@),
        ensures
            final(self)@.wf(),
            final(self)@.root == old(self)@.root,
            match result {
                Ok(log) => exists|course: MergeCourse|
                    {
                        &&& #[trigger] merged(old(self)@, other@, now, course, final(self)@)
                        &&& log@ == merge_notes(other@, now, course)
                    },
                Err(error) => merge_refused(old(self)@, other@, now, error),
            },
    {
        self.merge_with(other, Some(now))
    }

    /// Merges another version of the same database into this one, at a given moment or at one that
    /// the clock shows.
    fn merge_with(&mut self, other: &Database, moment: Option<NaiveDateTime>) -> (result: Result<MergeLog, MergeError>)
        requires
            mergeable(old(self)@, other@),
        ensures
            final(self)@.wf(),
            final(self)@.root == old(self)@.root,
            match result {
                Ok(log) => exists|now: NaiveDateTime, course: MergeCourse|
                    {
                        &&& is_moment(moment, now)
                        &&& #[trigger] merged(old(self)@, other@, now, course, final(self)@)
                        &&& log@ == merge_notes(other@, now, course)
                    },
                Err(error) => exists|now: NaiveDateTime|
                    is_moment(moment, now) && #[trigger] merge_refused(old(self)@, other@, now, error),
            },
    {
        let ghost before = self@;
        let ghost s = other@;
        let (source, icons) = prepare_icons(self, other);
        let ghost (translation, base, imports) = icons@;
        let ghost start = self@;
        match merge_tables(self, &source, moment) {
            Ok((log, groups)) => {
                proof {
                    lemma_merged(before, s, moment, translation, base, imports, start, groups@, self@, log@);
                }
                Ok(log)
            },
            Err(error) => {
                proof {
                    lemma_refused(before, s, moment, translation, base, imports, start, error);
                }
                Err(error)
            },
        }
    }
}

/// Groups and entries were merged, once the destination had the icons.
#[verifier::opaque]
spec fn tables_merged(
    dest: DatabaseModel,
    source: DatabaseModel,
    moment: Option<NaiveDateTime>,
    course: (NaiveDateTime, GroupsCourse, DatabaseModel),
    after: DatabaseModel,
    log: LogModel,
) -> bool {
    let (now, groups, settled) = course;
    &&& is_moment(moment, now)
    &&& groups_merged(dest, source, now, groups, settled)
    &&& after == tidied(settled)
    &&& log == groups_notes(dest, source, now, groups)
}

/// Groups and entries could not be merged.
#[verifier::opaque]
spec fn tables_refused(
    dest: DatabaseModel,
    source: DatabaseModel,
    moment: Option<NaiveDateTime>,
    error: MergeError,
) -> bool {
    exists|now: NaiveDateTime|
        is_moment(moment, now) && #[trigger] groups_merge_refused(dest, source, now, error)
}

/// Brings the icons that the destination shows without having them, and those that the source shows,
/// into the destination. Returns the source with the identifiers under which the destination has
/// them.
fn prepare_icons(dest: &mut Database, source: &Database) -> (result: (
    Database,
    Ghost<(Translation, DatabaseModel, Translation)>,
))
    requires
        mergeable(old(dest)@, source@),
    ensures
        ({
            let (translation, base, imports) = result.1@;
            &&& icons_adopted(old(dest)@, source@, translation, base)
            &&& icons_aligned(base, source@, imports, final(dest)@)
            &&& result.0@ == aligned_source(base, source@, imports)
        }),
        mergeable(final(dest)@, result.0@),
        final(dest)@.root == old(dest)@.root,
{
    let ghost before = dest@;
    let ghost s = source@;
    adopt_source_custom_icons(dest, source);
    let ghost base = dest@;
    let ghost translation = choose|translation: Translation| #[trigger] icons_adopted(before, s, translation, base);
    let (aligned, imports) = align_custom_icons(dest, source);
    proof {
        lemma_adopted_alike(before, s, translation, base);
        lemma_alike(base, s, imports@, dest@);
        assert(group_created(dest@, aligned@, aligned@.root) == group_created(base, s, s.root));
        assert(group_created(base, s, s.root) == group_created(before, s, s.root));
    }
    (aligned, Ghost((translation, base, imports@)))
}

/// Merges groups and entries, once the destination has the icons, and tidies the references.
fn merge_tables(dest: &mut Database, source: &Database, moment: Option<NaiveDateTime>) -> (result: Result<
    (MergeLog, Ghost<(NaiveDateTime, GroupsCourse, DatabaseModel)>),
    MergeError,
>)
    requires
        mergeable(old(dest)@, source@),
    ensures
        final(dest)@.wf(),
        final(dest)@.root == old(dest)@.root,
        match result {
            Ok((log, course)) => tables_merged(old(dest)@, source@, moment, course@, final(dest)@, log@),
            Err(error) => tables_refused(old(dest)@, source@, moment, error),
        },
{
    let mut log = MergeLog::default();
    proof {
        reveal(tables_merged);
        reveal(tables_refused);
    }
    match merge_groups(dest, source, moment, &mut log) {
        Ok(course) => {
            let ghost settled = dest@;
            tidy_references(dest);
            Ok((log, Ghost((course@.0, course@.1, settled))))
        },
        Err(error) => Err(error),
    }
}

/// Drops the attachments and custom icons to which nothing refers, and puts the places that refer to
/// the others on record.
fn tidy_references(db: &mut Database)
    requires
        old(db)@.wf(),
    ensures
        final(db)@ == tidied(old(db)@),
        final(db)@.wf(),
{
    let ghost before = db@;
    rebuild_attachment_references(db);
    rebuild_custom_icon_references(db);
    assert(db@.custom_icons =~= indexed_icons(before));
}

/// What a refused merge of groups and entries means for the merge.
proof fn lemma_refused(
    dest: DatabaseModel,
    source: DatabaseModel,
    moment: Option<NaiveDateTime>,
    translation: Translation,
    base: DatabaseModel,
    imports: Translation,
    start: DatabaseModel,
    error: MergeError,
)
    requires
        icons_adopted(dest, source, translation, base),
        icons_aligned(base, source, imports, start),
        tables_refused(start, aligned_source(base, source, imports), moment, error),
    ensures
        exists|now: NaiveDateTime|
            is_moment(moment, now) && #[trigger] merge_refused(dest, source, now, error),
{
    reveal(tables_refused);
    let now = choose|now: NaiveDateTime|
        is_moment(moment, now) && #[trigger] groups_merge_refused(
            start,
            aligned_source(base, source, imports),
            now,
            error,
        );
    assert(merge_refused(dest, source, now, error));
}

/// The steps of a merge make a merge.
proof fn lemma_merged(
    dest: DatabaseModel,
    source: DatabaseModel,
    moment: Option<NaiveDateTime>,
    translation: Translation,
    base: DatabaseModel,
    imports: Translation,
    start: DatabaseModel,
    groups: (NaiveDateTime, GroupsCourse, DatabaseModel),
    after: DatabaseModel,
    log: LogModel,
)
    requires
        icons_adopted(dest, source, translation, base),
        icons_aligned(base, source, imports, start),
        tables_merged(start, aligned_source(base, source, imports), moment, groups, after, log),
    ensures
        exists|now: NaiveDateTime, course: MergeCourse|
            {
                &&& is_moment(moment, now)
                &&& #[trigger] merged(dest, source, now, course, after)
                &&& log == merge_notes(source, now, course)
            },
{
    reveal(tables_merged);
    let (now, groups, settled) = groups;
    let course = MergeCourse { translation, base, imports, start, groups, settled };
    assert(merged(dest, source, now, course, after));
}

} // verus!

//! What a merge reports.
use vstd::prelude::*;

use crate::datetime::NaiveDateTime;
use crate::db::database::MoveGroupError;
use crate::ids::{push_uuid, uuid_text, AttachmentId, EntryId, GroupId};

verus! {

/// What happened to an object.
#[derive(Clone, Copy, Debug, PartialEq, Eq, Structural)]
pub enum MergeEventType {
    Created,
    Deleted,
    LocationUpdated,
    Updated,
}

/// The object to which something happened.
#[derive(Clone, Copy, Debug, PartialEq, Eq, Structural)]
pub enum MergeEventTarget {
    Entry(EntryId),
    Group(GroupId),
}

/// A change that a merge made to the destination.
#[derive(Clone, Copy, Debug, PartialEq, Eq, Structural)]
pub struct MergeEvent {
    pub target: MergeEventTarget,
    pub event_type: MergeEventType,
}

/// Why two databases could not be merged.
#[derive(Clone, Copy, Debug, PartialEq, Eq, Structural)]
pub enum MergeError {
    /// Two versions of an entry have the same modification time but have diverged.
    EntryModificationTimeNotUpdated(EntryId),
    /// Two versions of a group have the same modification time but have diverged.
    GroupModificationTimeNotUpdated(GroupId),
    /// Two archived versions of an entry have the same timestamp.
    DuplicateHistoryEntries(NaiveDateTime, EntryId),
    /// An entry refers to an attachment that the source does not have.
    AttachmentNotFound(AttachmentId),
    /// A group could not be moved.
    MoveGroupError(MoveGroupError),
}

/// What a merge did, and what it could not decide.
#[derive(Debug, Clone)]
pub struct MergeLog {
    pub warnings: Vec<String>,
    pub events: Vec<MergeEvent>,
}

/// The content of a log.
pub struct LogModel {
    pub warnings: Seq<Seq<char>>,
    pub events: Seq<MergeEvent>,
}

impl LogModel {
    /// A log in which nothing is written.
    pub open spec fn empty() -> Self {
        LogModel { warnings: Seq::empty(), events: Seq::empty() }
    }

    /// A log that holds one event.
    pub open spec fn event(target: MergeEventTarget, event_type: MergeEventType) -> Self {
        LogModel { warnings: Seq::empty(), events: seq![MergeEvent { target, event_type }] }
    }

    /// A log that holds one warning.
    pub open spec fn warning(warning: Warning) -> Self {
        LogModel { warnings: seq![warning.text()], events: Seq::empty() }
    }

    /// The log, continued with another one.
    pub open spec fn plus(self, more: LogModel) -> Self {
        LogModel { warnings: self.warnings + more.warnings, events: self.events + more.events }
    }

    /// This log if a condition holds, and an empty one otherwise.
    pub open spec fn only_if(self, condition: bool) -> Self {
        if condition {
            self
        } else {
            Self::empty()
        }
    }
}

/// What the items of a walk contribute to the log, in the order of the walk.
pub open spec fn collected<A>(walk: Seq<A>, notes: spec_fn(A) -> LogModel) -> LogModel
    decreases walk.len(),
{
    if walk.len() == 0 {
        LogModel::empty()
    } else {
        collected(walk.drop_last(), notes).plus(notes(walk.last()))
    }
}

/// Continuing a log is associative, and nothing is contributed by an empty log.
pub broadcast proof fn lemma_plus_assoc(a: LogModel, b: LogModel, c: LogModel)
    ensures
        #[trigger] a.plus(b).plus(c) == a.plus(b.plus(c)),
{
    assert(a.warnings + b.warnings + c.warnings =~= a.warnings + (b.warnings + c.warnings));
    assert(a.events + b.events + c.events =~= a.events + (b.events + c.events));
}

pub broadcast proof fn lemma_plus_empty(a: LogModel)
    ensures
        #[trigger] a.plus(LogModel::empty()) == a,
{
    assert(a.warnings + Seq::<Seq<char>>::empty() =~= a.warnings);
    assert(a.events + Seq::<MergeEvent>::empty() =~= a.events);
}

pub broadcast proof fn lemma_empty_plus(a: LogModel)
    ensures
        #[trigger] LogModel::empty().plus(a) == a,
{
    assert(Seq::<Seq<char>>::empty() + a.warnings =~= a.warnings);
    assert(Seq::<MergeEvent>::empty() + a.events =~= a.events);
}

pub broadcast group group_log {
    lemma_plus_assoc,
    lemma_plus_empty,
    lemma_empty_plus,
}

/// What one more item of a walk contributes.
pub proof fn lemma_collected_push<A>(walk: Seq<A>, i: int, notes: spec_fn(A) -> LogModel)
    requires
        0 <= i < walk.len(),
    ensures
        collected(walk.take(i + 1), notes) == collected(walk.take(i), notes).plus(notes(walk[i])),
{
    assert(walk.take(i + 1).drop_last() =~= walk.take(i));
}

/// A log without events and, where quiet is asked for, without warnings.
pub open spec fn uneventful(log: LogModel, quiet: bool) -> bool {
    log.events.len() == 0 && (quiet ==> log.warnings.len() == 0)
}

/// A walk on which nothing happens.
pub proof fn lemma_collected_uneventful<A>(walk: Seq<A>, notes: spec_fn(A) -> LogModel, quiet: bool)
    requires
        forall|i: int| 0 <= i < walk.len() ==> uneventful(notes(#[trigger] walk[i]), quiet),
    ensures
        uneventful(collected(walk, notes), quiet),
    decreases walk.len(),
{
    if walk.len() > 0 {
        assert forall|i: int| 0 <= i < walk.drop_last().len() implies uneventful(
            notes(#[trigger] walk.drop_last()[i]),
            quiet,
        ) by {
            assert(walk.drop_last()[i] == walk[i]);
        }
        lemma_collected_uneventful(walk.drop_last(), notes, quiet);
        assert(walk[walk.len() - 1] == walk.last());
    }
}

impl View for MergeLog {
    type V = LogModel;

    open spec fn view(&self) -> LogModel {
        LogModel { warnings: self.warnings.deep_view(), events: self.events@ }
    }
}

impl Default for MergeLog {
    fn default() -> (log: Self)
        ensures
            log@ == LogModel::empty(),
    {
        let log = MergeLog { warnings: Vec::new(), events: Vec::new() };
        assert(log@.warnings =~= Seq::<Seq<char>>::empty());
        log
    }
}

impl MergeLog {
    /// Writes an event.
    pub fn record(&mut self, target: MergeEventTarget, event_type: MergeEventType)
        ensures
            final(self)@ == old(self)@.plus(LogModel::event(target, event_type)),
    {
        self.events.push(MergeEvent { target, event_type });
        assert(self@.warnings =~= old(self)@.warnings + Seq::<Seq<char>>::empty());
        assert(self@.events =~= old(self)@.events + seq![MergeEvent { target, event_type }]);
    }

    /// Writes a warning.
    pub fn warn(&mut self, warning: Warning)
        ensures
            final(self)@ == old(self)@.plus(LogModel::warning(warning)),
    {
        self.warnings.push(warning.render());
        assert(self@.warnings =~= old(self)@.warnings + seq![warning.text()]);
        assert(self@.events =~= old(self)@.events + Seq::<MergeEvent>::empty());
    }

    /// Continues the log with another one.
    pub fn append(&mut self, more: MergeLog)
        ensures
            final(self)@ == old(self)@.plus(more@),
    {
        let mut more: MergeLog = more;
        let ghost added = more@;
        self.warnings.append(&mut more.warnings);
        self.events.append(&mut more.events);
        assert(self@.warnings =~= old(self)@.warnings + added.warnings);
        assert(self@.events =~= old(self)@.events + added.events);
    }
}

/// Something that a merge could not decide.
#[derive(Clone, Copy, Debug)]
pub enum Warning {
    RootGroupMoved(GroupId),
    GroupMoveTargetMissing(GroupId, GroupId),
    GroupMoveUndecided(GroupId),
    DestinationGroupUndated(GroupId),
    SourceGroupUndated(GroupId),
    EntryParentMissing(EntryId, GroupId),
    EntryMoveTargetMissing(EntryId, GroupId),
    EntryMoveUndecided(EntryId),
    SourceEntryUndated(EntryId),
    DestinationEntryUndated(EntryId),
    SourceEntryWithoutHistory(EntryId),
    DestinationEntryWithoutHistory(EntryId),
    DestinationVersionUndated(EntryId),
    SourceVersionUndated(EntryId),
    VersionsDiverged(EntryId, NaiveDateTime),
}

impl Warning {
    /// The wording of a warning.
    pub open spec fn text(self) -> Seq<char> {
        match self {
            Warning::RootGroupMoved(g) => "Cannot move root group "@ + uuid_text(g.uuid),
            Warning::GroupMoveTargetMissing(g, p) => "Cannot move group "@ + uuid_text(g.uuid) + " to group "@
                + uuid_text(p.uuid)
                + " because the group does not exist in the destination database."@,
            Warning::GroupMoveUndecided(g) => "Cannot determine which group "@ + uuid_text(g.uuid)
                + " move is more recent because one of the groups does not have a location changed timestamp."@,
            Warning::DestinationGroupUndated(g) => "Destination group "@ + uuid_text(g.uuid)
                + " did not have a last modification timestamp"@,
            Warning::SourceGroupUndated(g) => "Source group "@ + uuid_text(g.uuid)
                + " did not have a last modification timestamp"@,
            Warning::EntryParentMissing(e, p) => "Cannot add entry "@ + uuid_text(e.uuid)
                + " because its parent group "@ + uuid_text(p.uuid)
                + " does not exist in the destination database."@,
            Warning::EntryMoveTargetMissing(e, p) => "Cannot move entry "@ + uuid_text(e.uuid) + " to group "@
                + uuid_text(p.uuid)
                + " because the group does not exist in the destination database."@,
            Warning::EntryMoveUndecided(e) => "Cannot determine which entry "@ + uuid_text(e.uuid)
                + " move is more recent because one of the entries does not have a location changed timestamp."@,
            Warning::SourceEntryUndated(e) => "Source entry "@ + uuid_text(e.uuid)
                + " did not have a last modification timestamp"@,
            Warning::DestinationEntryUndated(e) => "Destination entry "@ + uuid_text(e.uuid)
                + " did not have a last modification timestamp"@,
            Warning::SourceEntryWithoutHistory(e) => "Source entry "@ + uuid_text(e.uuid) + " had no history."@,
            Warning::DestinationEntryWithoutHistory(e) => "Destination entry "@ + uuid_text(e.uuid)
                + " had no history."@,
            Warning::DestinationVersionUndated(e) => "Destination history entry "@ + uuid_text(e.uuid)
                + " did not have a last modification timestamp"@,
            Warning::SourceVersionUndated(e) => "Source history entry "@ + uuid_text(e.uuid)
                + " did not have a last modification timestamp"@,
            Warning::VersionsDiverged(e, t) => "History entries for "@ + uuid_text(e.uuid)
                + " have the same modification timestamp "@ + t.text() + " but have diverged."@,
        }
    }

    /// The warning as text.
    pub fn render(&self) -> (text: String)
        ensures
            text@ == self.text(),
    {
        match self {
            Warning::RootGroupMoved(g) => {
                let mut text: String = "Cannot move root group ".to_owned();
                push_uuid(&mut text, g.uuid);
                text
            },
            Warning::GroupMoveTargetMissing(g, p) => {
                let mut text: String = sentence("Cannot move group ", g.uuid, " to group ");
                push_uuid(&mut text, p.uuid);
                text.append(" because the group does not exist in the destination database.");
                text
            },
            Warning::GroupMoveUndecided(g) => sentence(
                "Cannot determine which group ",
                g.uuid,
                " move is more recent because one of the groups does not have a location changed timestamp.",
            ),
            Warning::DestinationGroupUndated(g) => sentence(
                "Destination group ",
                g.uuid,
                " did not have a last modification timestamp",
            ),
            Warning::SourceGroupUndated(g) => sentence(
                "Source group ",
                g.uuid,
                " did not have a last modification timestamp",
            ),
            Warning::EntryParentMissing(e, p) => {
                let mut text: String = sentence("Cannot add entry ", e.uuid, " because its parent group ");
                push_uuid(&mut text, p.uuid);
                text.append(" does not exist in the destination database.");
                text
            },
            Warning::EntryMoveTargetMissing(e, p) => {
                let mut text: String = sentence("Cannot move entry ", e.uuid, " to group ");
                push_uuid(&mut text, p.uuid);
                text.append(" because the group does not exist in the destination database.");
                text
            },
            Warning::EntryMoveUndecided(e) => sentence(
                "Cannot determine which entry ",
                e.uuid,
                " move is more recent because one of the entries does not have a location changed timestamp.",
            ),
            Warning::SourceEntryUndated(e) => sentence(
                "Source entry ",
                e.uuid,
                " did not have a last modification timestamp",
            ),
            Warning::DestinationEntryUndated(e) => sentence(
                "Destination entry ",
                e.uuid,
                " did not have a last modification timestamp",
            ),
            Warning::SourceEntryWithoutHistory(e) => sentence("Source entry ", e.uuid, " had no history."),
            Warning::DestinationEntryWithoutHistory(e) => sentence(
                "Destination entry ",
                e.uuid,
                " had no history.",
            ),
            Warning::DestinationVersionUndated(e) => sentence(
                "Destination history entry ",
                e.uuid,
                " did not have a last modification timestamp",
            ),
            Warning::SourceVersionUndated(e) => sentence(
                "Source history entry ",
                e.uuid,
                " did not have a last modification timestamp",
            ),
            Warning::VersionsDiverged(e, t) => {
                let mut text: String = sentence(
                    "History entries for ",
                    e.uuid,
                    " have the same modification timestamp ",
                );
                text.append(t.display().as_str());
                text.append(" but have diverged.");
                text
            },
        }
    }
}

/// An identifier between two pieces of text.
fn sentence(before: &str, uuid: u128, after: &str) -> (text: String)
    ensures
        text@ == before@ + uuid_text(uuid) + after@,
{
    let mut text: String = before.to_owned();
    push_uuid(&mut text, uuid);
    text.append(after);
    text
}

} // verus!

//! Merging the archived versions of an entry.
use vstd::prelude::*;

use crate::datetime::NaiveDateTime;
use crate::datum::Datum;
use crate::db::database::lemma_push_contains;
use crate::db::entry::{Entry, EntryModel, History};
use crate::db::times::Times;
use crate::merge::diverge::{entries_diverged, have_entries_diverged};
use crate::merge::log::{
    collected, group_log, lemma_collected_push, LogModel, MergeError, MergeLog, Warning,
};

verus! {

broadcast use group_log;

/// The version with the start of 1970 as its modification time, where it has none.
pub open spec fn dated(e: EntryModel) -> EntryModel {
    if e.times.last_modification is Some {
        e
    } else {
        EntryModel {
            times: Times { last_modification: Some(NaiveDateTime::spec_epoch()), ..e.times },
            ..e
        }
    }
}

/// All versions, dated.
pub open spec fn all_dated(versions: Seq<EntryModel>) -> Seq<EntryModel> {
    versions.map_values(|e: EntryModel| dated(e))
}

/// When a version was modified; one without a date counts as the oldest.
pub open spec fn modified(e: EntryModel) -> NaiveDateTime {
    match e.times.last_modification {
        Some(t) => t,
        None => NaiveDateTime::spec_epoch(),
    }
}

/// The versions stand in descending order of time.
pub open spec fn is_descending(versions: Seq<EntryModel>) -> bool {
    forall|i: int, j: int|
        0 <= i < j < versions.len() ==> !modified(#[trigger] versions[j]).is_after(
            modified(#[trigger] versions[i]),
        )
}

/// A descending sequence of versions with one more in its place, in front of those of the same
/// time.
pub open spec fn filed(versions: Seq<EntryModel>, e: EntryModel) -> Seq<EntryModel>
    decreases versions.len(),
{
    if versions.len() > 0 && modified(versions[0]).is_after(modified(e)) {
        seq![versions[0]] + filed(versions.drop_first(), e)
    } else {
        seq![e] + versions
    }
}

/// The versions in descending order of time; those of the same time keep their order.
pub open spec fn newest_first(versions: Seq<EntryModel>) -> Seq<EntryModel>
    decreases versions.len(),
{
    if versions.len() == 0 {
        Seq::empty()
    } else {
        filed(newest_first(versions.drop_first()), versions[0])
    }
}

/// Two versions are of the same moment and agree in what counts.
pub open spec fn same_version(a: EntryModel, b: EntryModel) -> bool {
    modified(a) == modified(b) && !entries_diverged(a, b)
}

/// A version, or one that is the same, is in a sequence.
pub open spec fn keeps(versions: Seq<EntryModel>, x: EntryModel) -> bool {
    exists|y: EntryModel| #[trigger] versions.contains(y) && same_version(y, x)
}

/// The last place of a version that is the same as another one, or -1.
pub open spec fn place_of(versions: Seq<EntryModel>, x: EntryModel) -> int
    decreases versions.len(),
{
    if versions.len() == 0 {
        -1
    } else if same_version(versions.last(), x) {
        versions.len() - 1
    } else {
        place_of(versions.drop_last(), x)
    }
}

/// Versions held against known ones, of which each accounts for at most one: the versions that no
/// known one accounts for, and the known ones that are left over.
pub open spec fn compared(versions: Seq<EntryModel>, known: Seq<EntryModel>) -> (Seq<EntryModel>, Seq<EntryModel>)
    decreases versions.len(),
{
    if versions.len() == 0 {
        (Seq::empty(), known)
    } else {
        let (news, left) = compared(versions.drop_last(), known);
        let at = place_of(left, versions.last());
        if at >= 0 {
            (news, left.remove(at))
        } else {
            (news.push(versions.last()), left)
        }
    }
}

/// The source's versions that no version of the destination accounts for, the latest first, and
/// the versions of the destination that account for none.
pub open spec fn unmatched(dest: Seq<EntryModel>, source: Seq<EntryModel>) -> (Seq<EntryModel>, Seq<EntryModel>) {
    compared(newest_first(all_dated(source)), all_dated(dest))
}

/// The archived versions of both sides, the latest first. Of two versions of the same time both
/// are kept, the destination's first, unless they agree in what counts. Each version of the
/// destination accounts for at most one of the source.
pub open spec fn merged_history(dest: Seq<EntryModel>, source: Seq<EntryModel>) -> Seq<EntryModel> {
    newest_first(all_dated(dest) + unmatched(dest, source).0)
}

/// The warning about a version without a modification time.
pub open spec fn undated_note(from_source: bool, e: EntryModel) -> LogModel {
    LogModel::warning(
        if from_source {
            Warning::SourceVersionUndated(e.id)
        } else {
            Warning::DestinationVersionUndated(e.id)
        },
    ).only_if(e.times.last_modification is None)
}

/// The last place of a version of a certain time, or -1.
pub open spec fn place_at(versions: Seq<EntryModel>, t: NaiveDateTime) -> int
    decreases versions.len(),
{
    if versions.len() == 0 {
        -1
    } else if modified(versions.last()) == t {
        versions.len() - 1
    } else {
        place_at(versions.drop_last(), t)
    }
}

/// The warnings about versions that have the same time as others but differ from them in what
/// counts, one for each pair of such versions, and the others that are left over.
pub open spec fn divergence(versions: Seq<EntryModel>, others: Seq<EntryModel>) -> (LogModel, Seq<EntryModel>)
    decreases versions.len(),
{
    if versions.len() == 0 {
        (LogModel::empty(), others)
    } else {
        let (notes, left) = divergence(versions.drop_last(), others);
        let t = modified(versions.last());
        let at = place_at(left, t);
        if at >= 0 {
            (notes.plus(LogModel::warning(Warning::VersionsDiverged(left[at].id, t))), left.remove(at))
        } else {
            (notes, left)
        }
    }
}

/// What merging two histories writes to the log.
pub open spec fn history_notes(dest: Seq<EntryModel>, source: Seq<EntryModel>) -> LogModel {
    let (news, left) = unmatched(dest, source);
    collected(dest, |e: EntryModel| undated_note(false, e)).plus(
        collected(source, |e: EntryModel| undated_note(true, e)),
    ).plus(divergence(news, left).0)
}

/// What a sequence of entries holds.
pub open spec fn contents(entries: Seq<Entry>) -> Seq<EntryModel> {
    entries.map_values(|e: Entry| e.deep_view())
}

/// Where a version is filed: in front of the first one that is not later.
pub proof fn lemma_filed(versions: Seq<EntryModel>, e: EntryModel, at: int)
    requires
        0 <= at <= versions.len(),
        at < versions.len() ==> !modified(versions[at]).is_after(modified(e)),
        forall|i: int| 0 <= i < at ==> modified(#[trigger] versions[i]).is_after(modified(e)),
    ensures
        filed(versions, e) == versions.insert(at, e),
    decreases versions.len(),
{
    if at > 0 {
        assert(modified(versions[0]).is_after(modified(e)));
        let rest = versions.drop_first();
        assert forall|i: int| 0 <= i < at - 1 implies modified(#[trigger] rest[i]).is_after(modified(e)) by {
            assert(rest[i] == versions[i + 1]);
        }
        lemma_filed(rest, e, at - 1);
        assert(seq![versions[0]] + rest.insert(at - 1, e) =~= versions.insert(at, e));
    } else {
        assert(seq![e] + versions =~= versions.insert(at, e));
    }
}

/// When a version was modified; one without a date counts as the oldest.
fn modification(e: &Entry) -> (t: NaiveDateTime)
    ensures
        t == modified(e.deep_view()),
{
    match e.times.last_modification {
        Some(t) => t,
        None => NaiveDateTime::epoch(),
    }
}

/// Puts a version in its place among others, which stand in descending order of time.
pub fn file_version(versions: &mut Vec<Entry>, version: Entry)
    ensures
        contents(final(versions)@) == filed(contents(old(versions)@), version.deep_view()),
{
    let ghost before = versions@;
    let ghost m = version.deep_view();
    let time: NaiveDateTime = modification(&version);
    let mut at: usize = 0;
    while at < versions.len() && modification(&versions[at]).after(&time)
        invariant
            at <= versions@.len(),
            versions@ == before,
            time == modified(m),
            forall|i: int| 0 <= i < at ==> modified(#[trigger] contents(before)[i]).is_after(modified(m)),
        decreases versions@.len() - at,
    {
        at = at + 1;
    }
    proof {
        if at < before.len() {
            assert(contents(before)[at as int] == before[at as int].deep_view());
        }
        lemma_filed(contents(before), m, at as int);
    }
    versions.insert(at, version);
    assert(contents(versions@) =~= contents(before).insert(at as int, m));
}

/// Puts the versions in descending order of time; those of the same time keep their order.
fn sort_newest_first(versions: Vec<Entry>) -> (sorted: Vec<Entry>)
    ensures
        contents(sorted@) == newest_first(contents(versions@)),
{
    let ghost all = contents(versions@);
    let mut versions: Vec<Entry> = versions;
    let mut sorted: Vec<Entry> = Vec::new();
    assert(contents(sorted@) =~= Seq::<EntryModel>::empty());
    assert(all.skip(all.len() as int) =~= Seq::<EntryModel>::empty());
    while versions.len() > 0
        invariant
            versions@.len() <= all.len(),
            contents(versions@) =~= all.take(versions@.len() as int),
            contents(sorted@) == newest_first(all.skip(versions@.len() as int)),
        decreases versions@.len(),
    {
        let ghost before = versions@;
        let ghost n = versions@.len() - 1;
        match versions.pop() {
            Some(e) => {
                proof {
                    assert(contents(before)[n] == e.deep_view());
                    assert(all.skip(n)[0] == e.deep_view());
                    assert(all.skip(n).drop_first() =~= all.skip(n + 1));
                }
                file_version(&mut sorted, e);
            },
            None => {},
        }
        assert(contents(versions@) =~= contents(before).drop_last());
    }
    assert(all.skip(0) =~= all);
    sorted
}

/// A place where there is a version that is the same.
pub proof fn lemma_place_of(versions: Seq<EntryModel>, x: EntryModel)
    ensures
        -1 <= place_of(versions, x) < versions.len(),
        place_of(versions, x) >= 0 ==> same_version(versions[place_of(versions, x)], x),
        place_of(versions, x) >= 0 <==> keeps(versions, x),
    decreases versions.len(),
{
    if versions.len() > 0 {
        let front = versions.drop_last();
        lemma_place_of(front, x);
        lemma_push_contains(front, versions.last());
        assert(front.push(versions.last()) =~= versions);
        let at = place_of(versions, x);
        if at >= 0 {
            assert(versions.contains(versions[at]) && same_version(versions[at], x));
        }
        if keeps(versions, x) && !same_version(versions.last(), x) {
            let y = choose|y: EntryModel| #[trigger] versions.contains(y) && same_version(y, x);
            assert(front.contains(y) && same_version(y, x));
        }
    }
}

/// The last place of a version that is the same as another one.
fn find_version(versions: &Vec<Entry>, version: &Entry) -> (at: Option<usize>)
    ensures
        match at {
            Some(i) => i < versions@.len() && place_of(contents(versions@), version.deep_view()) == i,
            None => place_of(contents(versions@), version.deep_view()) == -1,
        },
{
    let ghost all = contents(versions@);
    let ghost m = version.deep_view();
    let time: NaiveDateTime = modification(version);
    let mut i: usize = versions.len();
    assert(all.take(all.len() as int) =~= all);
    while i > 0
        invariant
            i <= versions@.len(),
            all == contents(versions@),
            m == version.deep_view(),
            time == modified(m),
            place_of(all, m) == place_of(all.take(i as int), m),
        decreases i,
    {
        i = i - 1;
        proof {
            assert(all[i as int] == versions@[i as int].deep_view());
            assert(all.take(i + 1).last() == all[i as int]);
            assert(all.take(i + 1).drop_last() =~= all.take(i as int));
        }
        if modification(&versions[i]) == time && !have_entries_diverged(&versions[i], version) {
            return Some(i);
        }
    }
    None
}

/// Whether a version, or one that is the same, is among others.
pub fn is_known(known: &Vec<Entry>, version: &Entry) -> (found: bool)
    ensures
        found == keeps(contents(known@), version.deep_view()),
{
    proof {
        lemma_place_of(contents(known@), version.deep_view());
    }
    find_version(known, version).is_some()
}

/// The last place of a version of a certain time.
fn find_moment(versions: &Vec<Entry>, time: NaiveDateTime) -> (at: Option<usize>)
    ensures
        match at {
            Some(i) => i < versions@.len() && place_at(contents(versions@), time) == i,
            None => place_at(contents(versions@), time) == -1,
        },
{
    let ghost all = contents(versions@);
    let mut i: usize = versions.len();
    assert(all.take(all.len() as int) =~= all);
    while i > 0
        invariant
            i <= versions@.len(),
            all == contents(versions@),
            place_at(all, time) == place_at(all.take(i as int), time),
        decreases i,
    {
        i = i - 1;
        proof {
            assert(all[i as int] == versions@[i as int].deep_view());
            assert(all.take(i + 1).last() == all[i as int]);
            assert(all.take(i + 1).drop_last() =~= all.take(i as int));
        }
        if modification(&versions[i]) == time {
            return Some(i);
        }
    }
    None
}

/// The versions that no known one accounts for. Known ones that account for a version are taken out.
fn take_news(versions: &Vec<Entry>, known: &mut Vec<Entry>) -> (news: Vec<Entry>)
    ensures
        (contents(news@), contents(final(known)@)) == compared(contents(versions@), contents(old(known)@)),
{
    let ghost all = contents(versions@);
    let ghost before = contents(known@);
    let mut news: Vec<Entry> = Vec::new();
    let mut i: usize = 0;
    proof {
        assert(all.take(0) =~= Seq::<EntryModel>::empty());
        assert(contents(news@) =~= Seq::<EntryModel>::empty());
    }
    while i < versions.len()
        invariant
            i <= versions@.len(),
            all == contents(versions@),
            (contents(news@), contents(known@)) == compared(all.take(i as int), before),
        decreases versions@.len() - i,
    {
        let ghost e = all[i as int];
        let ghost old_news = news@;
        let ghost old_known = known@;
        proof {
            assert(e == versions@[i as int].deep_view());
            assert(all.take(i + 1).last() == e);
            assert(all.take(i + 1).drop_last() =~= all.take(i as int));
        }
        match find_version(known, &versions[i]) {
            Some(at) => {
                known.remove(at);
                assert(contents(known@) =~= contents(old_known).remove(at as int));
            },
            None => {
                let version: Entry = versions[i].clone();
                news.push(version);
                assert(contents(news@) =~= contents(old_news).push(e));
            },
        }
        i = i + 1;
    }
    assert(all.take(all.len() as int) =~= all);
    news
}

/// Warns of versions that have the same time as others but differ from them.
fn warn_of_divergence(versions: &Vec<Entry>, others: Vec<Entry>, log: &mut MergeLog)
    ensures
        final(log)@ == old(log)@.plus(divergence(contents(versions@), contents(others@)).0),
{
    let ghost all = contents(versions@);
    let ghost before = contents(others@);
    let ghost start = log@;
    let mut left: Vec<Entry> = others;
    let mut i: usize = 0;
    assert(all.take(0) =~= Seq::<EntryModel>::empty());
    while i < versions.len()
        invariant
            i <= versions@.len(),
            all == contents(versions@),
            log@ == start.plus(divergence(all.take(i as int), before).0),
            contents(left@) == divergence(all.take(i as int), before).1,
        decreases versions@.len() - i,
    {
        let ghost old_left = left@;
        let time: NaiveDateTime = modification(&versions[i]);
        proof {
            assert(all[i as int] == versions@[i as int].deep_view());
            assert(all.take(i + 1).last() == all[i as int]);
            assert(all.take(i + 1).drop_last() =~= all.take(i as int));
        }
        match find_moment(&left, time) {
            Some(at) => {
                assert(contents(old_left)[at as int] == old_left[at as int].deep_view());
                log.warn(Warning::VersionsDiverged(left[at].id, time));
                left.remove(at);
                assert(contents(left@) =~= contents(old_left).remove(at as int));
            },
            None => {},
        }
        i = i + 1;
    }
    assert(all.take(all.len() as int) =~= all);
}

/// Copies of versions.
fn copied(versions: &Vec<Entry>) -> (copies: Vec<Entry>)
    ensures
        contents(copies@) == contents(versions@),
{
    let ghost all = contents(versions@);
    let mut copies: Vec<Entry> = Vec::new();
    let mut i: usize = 0;
    while i < versions.len()
        invariant
            i <= versions@.len(),
            all == contents(versions@),
            contents(copies@) == all.take(i as int),
        decreases versions@.len() - i,
    {
        let ghost before = copies@;
        let version: Entry = versions[i].clone();
        copies.push(version);
        assert(all[i as int] == versions@[i as int].deep_view());
        assert(contents(copies@) =~= contents(before).push(all[i as int]));
        assert(all.take(i + 1) =~= all.take(i as int).push(all[i as int]));
        i = i + 1;
    }
    assert(all.take(all.len() as int) =~= all);
    copies
}

/// The versions of a history, dated, and a warning for each that had no date.
fn dated_versions(history: &History, from_source: bool, log: &mut MergeLog) -> (versions: Vec<Entry>)
    ensures
        contents(versions@) == all_dated(history.deep_view()),
        final(log)@ == old(log)@.plus(
            collected(history.deep_view(), |e: EntryModel| undated_note(from_source, e)),
        ),
{
    let ghost all = history.deep_view();
    let ghost notes = |e: EntryModel| undated_note(from_source, e);
    let mut versions: Vec<Entry> = Vec::new();
    let mut i: usize = 0;
    assert(all.take(0) =~= Seq::<EntryModel>::empty());
    while i < history.entries.len()
        invariant
            i <= history.entries@.len() == all.len(),
            all == history.deep_view(),
            versions@.len() == i,
            forall|j: int| 0 <= j < i ==> (#[trigger] versions@[j]).deep_view() == dated(all[j]),
            log@ == old(log)@.plus(collected(all.take(i as int), notes)),
            notes == (|e: EntryModel| undated_note(from_source, e)),
        decreases history.entries@.len() - i,
    {
        let mut version: Entry = history.entries[i].clone();
        let ghost before = version;
        proof {
            lemma_collected_push(all, i as int, notes);
            assert(all[i as int] == version.deep_view());
        }
        if version.times.last_modification.is_none() {
            if from_source {
                log.warn(Warning::SourceVersionUndated(version.id));
            } else {
                log.warn(Warning::DestinationVersionUndated(version.id));
            }
            version.times.last_modification = Some(NaiveDateTime::epoch());
            proof {
                before.lemma_history();
                version.lemma_history();
            }
        }
        versions.push(version);
        i = i + 1;
    }
    assert(all.take(all.len() as int) =~= all);
    assert(contents(versions@) =~= all_dated(all));
    versions
}

/// Merges two histories.
pub fn merge_history(dest: &History, source: &History, log: &mut MergeLog) -> (merged: Result<History, MergeError>)
    ensures
        merged matches Ok(h) && h.deep_view() == merged_history(dest.deep_view(), source.deep_view()),
        final(log)@ == old(log)@.plus(history_notes(dest.deep_view(), source.deep_view())),
{
    let mut all: Vec<Entry> = dated_versions(dest, false, log);
    let source_versions: Vec<Entry> = sort_newest_first(dated_versions(source, true, log));
    let ghost known = contents(all@);
    let mut left: Vec<Entry> = copied(&all);
    let mut news: Vec<Entry> = take_news(&source_versions, &mut left);
    let ghost fresh = contents(news@);
    warn_of_divergence(&news, left, log);
    let ghost before = all@;
    let ghost added = news@;
    all.append(&mut news);
    assert(contents(before + added) =~= known + fresh);
    let history = History { entries: sort_newest_first(all) };
    assert(history.deep_view() =~= contents(history.entries@));
    Ok(history)
}

} // verus!

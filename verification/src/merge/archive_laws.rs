//! What is in a merged history, version by version.
use vstd::prelude::*;

use crate::datetime::NaiveDateTime;
use crate::db::entry::EntryModel;
use crate::db::times::Times;
use crate::merge::entries::{archived, is_archived, placed_entry, reconciled_entry, versions};
use crate::merge::field_laws::{
    entries_agree_field_by_field, entry_holds, ticks, ticks_or, time_goes_on,
};
use crate::merge::history::{
    all_dated, compared, dated, divergence, filed, history_notes, is_descending, keeps,
    merged_history, modified, newest_first, place_at, place_of, same_version, undated_note,
};
use crate::merge::history_laws::{
    copies, lemma_copies_kept, lemma_filed_copies, lemma_filed_in_order, lemma_in_order_already,
    lemma_no_news, lemma_nothing_known, merged_history_adds_no_version, merged_history_holds_both,
    merged_history_is_newest_first, merged_history_keeps_every_version,
    merged_history_pairs_versions,
};
use crate::merge::log::{collected, LogModel, Warning};

verus! {

/// Two versions of an entry are of the same moment, an undated one being of the start of 1970, and
/// agree in every field but the times and the history.
pub open spec fn one_version(a: EntryModel, b: EntryModel) -> bool {
    &&& ticks_or(a.times.last_modification, 0) == ticks_or(b.times.last_modification, 0)
    &&& entry_holds(a, b)
    &&& a.id == b.id
    &&& a.parent == b.parent
    &&& a.icon == b.icon
    &&& a.attachments == b.attachments
}

/// How often a version is in a history.
pub open spec fn times_kept(history: Seq<EntryModel>, x: EntryModel) -> nat
    decreases history.len(),
{
    if history.len() == 0 {
        0
    } else {
        times_kept(history.drop_last(), x) + if one_version(history.last(), x) {
            1nat
        } else {
            0nat
        }
    }
}

/// A history is in order: every version is dated, and none is later than one that stands before it.
pub open spec fn latest_first(history: Seq<EntryModel>) -> bool {
    &&& forall|i: int| 0 <= i < history.len() ==> (#[trigger] history[i]).times.last_modification is Some
    &&& forall|i: int, j: int|
        0 <= i < j < history.len() ==> ticks((#[trigger] history[j]).times.last_modification->0) <= ticks(
            (#[trigger] history[i]).times.last_modification->0,
        )
}

/// A version is the same as another one, but that it is dated.
pub open spec fn dated_copy(a: EntryModel, b: EntryModel) -> bool {
    &&& a == (EntryModel {
        times: Times { last_modification: a.times.last_modification, ..b.times },
        ..b
    })
    &&& match b.times.last_modification {
        Some(t) => a.times.last_modification == Some(t),
        None => a.times.last_modification is Some && ticks(a.times.last_modification->0) == 0,
    }
}

/// The library tells versions apart by their modification times and by every field but the times
/// and the history.
proof fn lemma_one_version(a: EntryModel, b: EntryModel)
    ensures
        same_version(a, b) <==> one_version(a, b),
        ticks(modified(a)) == ticks_or(a.times.last_modification, 0),
{
    entries_agree_field_by_field(a, b);
    time_goes_on(modified(a), modified(b));
    time_goes_on(modified(b), NaiveDateTime::spec_epoch());
    time_goes_on(modified(a), NaiveDateTime::spec_epoch());
}

/// A version is dated.
proof fn lemma_dated_copy(e: EntryModel)
    ensures
        dated_copy(dated(e), e),
{
    time_goes_on(NaiveDateTime::spec_epoch(), NaiveDateTime::spec_epoch());
}

/// Copies are counted the same, dated or not.
proof fn lemma_times_kept(history: Seq<EntryModel>, x: EntryModel)
    ensures
        times_kept(history, x) == copies(history, x),
        times_kept(history, x) == copies(all_dated(history), x),
    decreases history.len(),
{
    if history.len() > 0 {
        lemma_times_kept(history.drop_last(), x);
        lemma_one_version(history.last(), x);
        lemma_one_version(dated(history.last()), x);
        lemma_dated_copy(history.last());
        assert(all_dated(history).drop_last() =~= all_dated(history.drop_last()));
        assert(all_dated(history).last() == dated(history.last()));
    } else {
        assert(all_dated(history) =~= history);
    }
}

/// A merged history is ordered by modification time, the latest first, whatever the other times of
/// its versions are.
pub proof fn merged_history_goes_back_in_time(dest: Seq<EntryModel>, source: Seq<EntryModel>)
    ensures
        latest_first(merged_history(dest, source)),
{
    let m = merged_history(dest, source);
    merged_history_is_newest_first(dest, source);
    assert forall|i: int| 0 <= i < m.len() implies (#[trigger] m[i]).times.last_modification is Some by {
        assert(m.contains(m[i]));
        merged_history_adds_no_version(dest, source, m[i]);
        let v = choose|v: EntryModel| (dest.contains(v) || source.contains(v)) && m[i] == #[trigger] dated(v);
        lemma_dated_copy(v);
    }
    lemma_latest_first(m);
}

/// A history in descending order has its latest version first.
proof fn lemma_latest_first(m: Seq<EntryModel>)
    requires
        is_descending(m),
        forall|i: int| 0 <= i < m.len() ==> (#[trigger] m[i]).times.last_modification is Some,
    ensures
        latest_first(m),
{
    assert forall|i: int, j: int| 0 <= i < j < m.len() implies ticks(
        (#[trigger] m[j]).times.last_modification->0,
    ) <= ticks((#[trigger] m[i]).times.last_modification->0) by {
        assert(!modified(m[j]).is_after(modified(m[i])));
        time_goes_on(modified(m[j]), modified(m[i]));
        lemma_one_version(m[i], m[j]);
        lemma_one_version(m[j], m[i]);
    }
}

/// A version is as often in a merged history as in that of the two histories in which it is more
/// often: nothing is lost, and what both have is not doubled.
pub proof fn merged_history_counts_versions(dest: Seq<EntryModel>, source: Seq<EntryModel>, x: EntryModel)
    ensures
        times_kept(merged_history(dest, source), x) == if times_kept(dest, x) < times_kept(source, x) {
            times_kept(source, x)
        } else {
            times_kept(dest, x)
        },
{
    lemma_times_kept(dest, x);
    lemma_times_kept(source, x);
    lemma_times_kept(merged_history(dest, source), x);
    merged_history_pairs_versions(dest, source, x);
}

/// A merged history is made of versions of the two histories. Those of the destination are all
/// there, unchanged but for a date where they had none.
pub proof fn merged_history_is_made_of_both(dest: Seq<EntryModel>, source: Seq<EntryModel>)
    ensures
        ({
            let m = merged_history(dest, source);
            &&& forall|i: int|
                0 <= i < dest.len() ==> exists|k: int| 0 <= k < m.len() && dated_copy(#[trigger] m[k], #[trigger] dest[i])
            &&& forall|k: int|
                0 <= k < m.len() ==> (exists|i: int| 0 <= i < dest.len() && dated_copy(#[trigger] m[k], #[trigger] dest[i]))
                    || (exists|i: int|
                    0 <= i < source.len() && dated_copy(#[trigger] m[k], #[trigger] source[i]))
            &&& dest.len() <= m.len()
            &&& source.len() <= m.len()
            &&& m.len() <= dest.len() + source.len()
        }),
{
    let m = merged_history(dest, source);
    merged_history_holds_both(dest, source);
    assert forall|i: int| 0 <= i < dest.len() implies exists|k: int|
        0 <= k < m.len() && dated_copy(#[trigger] m[k], #[trigger] dest[i]) by {
        assert(dest.contains(dest[i]));
        merged_history_keeps_every_version(dest, source, dest[i]);
        lemma_dated_copy(dest[i]);
        let k = choose|k: int| 0 <= k < m.len() && m[k] == dated(dest[i]);
        assert(dated_copy(m[k], dest[i]));
    }
    assert forall|k: int| 0 <= k < m.len() implies (exists|i: int|
        0 <= i < dest.len() && dated_copy(#[trigger] m[k], #[trigger] dest[i])) || (exists|i: int|
        0 <= i < source.len() && dated_copy(#[trigger] m[k], #[trigger] source[i])) by {
        assert(m.contains(m[k]));
        merged_history_adds_no_version(dest, source, m[k]);
        let v = choose|v: EntryModel| (dest.contains(v) || source.contains(v)) && m[k] == #[trigger] dated(v);
        lemma_dated_copy(v);
        if dest.contains(v) {
            let i = choose|i: int| 0 <= i < dest.len() && dest[i] == v;
            assert(dated_copy(m[k], dest[i]));
        } else {
            let i = choose|i: int| 0 <= i < source.len() && source[i] == v;
            assert(dated_copy(m[k], source[i]));
        }
    }
}

/// The versions in a history, if there is one.
pub open spec fn past(e: EntryModel) -> Seq<EntryModel> {
    match e.history {
        Some(h) => h,
        None => Seq::empty(),
    }
}

/// What the history of a merged entry is, in the terms of the library.
proof fn lemma_past(dest: EntryModel, source: EntryModel, target_present: bool, now: NaiveDateTime)
    requires
        dest != source,
        ticks_or(dest.times.last_modification, ticks(now)) != ticks_or(source.times.last_modification, 0),
    ensures
        ({
            let placed = placed_entry(dest, source, target_present);
            let h = merged_history(past(dest), past(source));
            let m = past(reconciled_entry(dest, source, target_present, now));
            &&& ticks_or(source.times.last_modification, 0) > ticks_or(dest.times.last_modification, ticks(now))
                ==> m == archived(placed, h)
            &&& ticks_or(source.times.last_modification, 0) < ticks_or(dest.times.last_modification, ticks(now))
                ==> m == h
        }),
{
    let epoch = NaiveDateTime::spec_epoch();
    let d = match dest.times.last_modification {
        Some(t) => t,
        None => now,
    };
    let s = match source.times.last_modification {
        Some(t) => t,
        None => epoch,
    };
    time_goes_on(d, s);
    time_goes_on(s, d);
    time_goes_on(s, epoch);
    assert(versions(dest) == past(dest) && versions(source) == past(source));
}

/// Where one of two versions of an entry is later than the other, the merged entry has its past in
/// order.
pub proof fn merged_entry_has_its_past_in_order(
    dest: EntryModel,
    source: EntryModel,
    target_present: bool,
    now: NaiveDateTime,
)
    requires
        dest != source,
        ticks_or(dest.times.last_modification, ticks(now)) != ticks_or(source.times.last_modification, 0),
        dest.times.last_modification is Some,
    ensures
        latest_first(past(reconciled_entry(dest, source, target_present, now))),
{
    let placed = placed_entry(dest, source, target_present);
    let version = placed.with_history(None);
    let h = merged_history(past(dest), past(source));
    let m = past(reconciled_entry(dest, source, target_present, now));
    lemma_past(dest, source, target_present, now);
    merged_history_goes_back_in_time(past(dest), past(source));
    merged_history_is_newest_first(past(dest), past(source));
    lemma_filed_in_order(h, version);
    if m != h {
        assert forall|i: int| 0 <= i < m.len() implies (#[trigger] m[i]).times.last_modification is Some by {
            assert(m.contains(m[i]));
            if h.contains(m[i]) {
                let k = choose|k: int| 0 <= k < h.len() && h[k] == m[i];
                assert(h[k].times.last_modification is Some);
            }
        }
        lemma_latest_first(m);
    }
}

/// Where one of two versions of an entry is later than the other, no archived version of either is
/// lost, however often it was archived.
pub proof fn merged_entry_loses_no_version(
    dest: EntryModel,
    source: EntryModel,
    target_present: bool,
    now: NaiveDateTime,
    x: EntryModel,
)
    requires
        dest != source,
        ticks_or(dest.times.last_modification, ticks(now)) != ticks_or(source.times.last_modification, 0),
    ensures
        ({
            let m = past(reconciled_entry(dest, source, target_present, now));
            times_kept(m, x) >= times_kept(past(dest), x) && times_kept(m, x) >= times_kept(past(source), x)
        }),
{
    let placed = placed_entry(dest, source, target_present);
    let h = merged_history(past(dest), past(source));
    lemma_past(dest, source, target_present, now);
    merged_history_counts_versions(past(dest), past(source), x);
    lemma_filed_times(h, placed.with_history(None), x);
}

/// A version that is replaced by a later one of the source is archived: the history holds a version
/// with every field that it had.
pub proof fn replaced_version_is_in_the_past(
    dest: EntryModel,
    source: EntryModel,
    target_present: bool,
    now: NaiveDateTime,
)
    requires
        dest != source,
        ticks_or(dest.times.last_modification, ticks(now)) != ticks_or(source.times.last_modification, 0),
        ticks_or(source.times.last_modification, 0) > ticks_or(dest.times.last_modification, ticks(now)),
    ensures
        exists|v: EntryModel| #[trigger]
            past(reconciled_entry(dest, source, target_present, now)).contains(v) && entry_holds(v, dest) && v.icon
                == dest.icon && v.attachments == dest.attachments && v.id == dest.id,
{
    let placed = placed_entry(dest, source, target_present);
    let version = placed.with_history(None);
    let h = merged_history(past(dest), past(source));
    let m = past(reconciled_entry(dest, source, target_present, now));
    lemma_past(dest, source, target_present, now);
    lemma_filed_in_order(h, version);
    if !is_archived(placed, h) {
        assert(m.contains(version));
        assert(entry_holds(version, dest));
    } else if keeps(h, placed) {
        let y = choose|y: EntryModel| #[trigger] h.contains(y) && same_version(y, placed);
        lemma_one_version(y, placed);
        assert(m.contains(y) && entry_holds(y, dest));
    } else {
        entries_agree_field_by_field(placed, h[0]);
        assert(m.contains(h[0]) && entry_holds(h[0], dest));
    }
}

/// The past of a merged entry is made of archived versions of the two and of the version that was
/// replaced, as it was.
pub proof fn merged_entry_has_no_other_past(
    dest: EntryModel,
    source: EntryModel,
    target_present: bool,
    now: NaiveDateTime,
    v: EntryModel,
)
    requires
        dest != source,
        ticks_or(dest.times.last_modification, ticks(now)) != ticks_or(source.times.last_modification, 0),
        past(reconciled_entry(dest, source, target_present, now)).contains(v),
    ensures
        ({
            ||| exists|i: int| 0 <= i < past(dest).len() && dated_copy(v, #[trigger] past(dest)[i])
            ||| exists|i: int| 0 <= i < past(source).len() && dated_copy(v, #[trigger] past(source)[i])
            ||| ticks_or(source.times.last_modification, 0) > ticks_or(dest.times.last_modification, ticks(now))
                && entry_holds(v, dest) && v.times.last_modification == dest.times.last_modification && v.icon
                == dest.icon && v.attachments == dest.attachments && v.history is None
        }),
{
    let placed = placed_entry(dest, source, target_present);
    let version = placed.with_history(None);
    let h = merged_history(past(dest), past(source));
    lemma_past(dest, source, target_present, now);
    lemma_filed_in_order(h, version);
    if h.contains(v) {
        merged_history_is_made_of_both(past(dest), past(source));
        let k = choose|k: int| 0 <= k < h.len() && h[k] == v;
        assert(h[k] == v);
    } else {
        assert(v == version);
    }
}

/// Filing a version adds it and loses none.
proof fn lemma_filed_times(h: Seq<EntryModel>, e: EntryModel, x: EntryModel)
    ensures
        times_kept(filed(h, e), x) >= times_kept(h, x),
{
    lemma_filed_copies(h, e, x);
    lemma_times_kept(h, x);
    lemma_times_kept(filed(h, e), x);
}

/// Merging one archived version with another one warns of each that is undated, and of the two if they
/// are of the same moment but differ.
pub proof fn two_versions_are_warned_of(a: EntryModel, b: EntryModel)
    ensures
        ({
            let undated_a: int = if a.times.last_modification is None {
                1
            } else {
                0
            };
            let undated_b: int = if b.times.last_modification is None {
                1
            } else {
                0
            };
            let diverged: int = if ticks_or(a.times.last_modification, 0) == ticks_or(b.times.last_modification, 0)
                && !one_version(a, b) {
                1
            } else {
                0
            };
            let log = history_notes(seq![a], seq![b]);
            &&& log.warnings.len() == undated_a + undated_b + diverged
            &&& log.events.len() == 0
            &&& diverged == 1 ==> log.warnings.last() == Warning::VersionsDiverged(a.id, modified(b)).text()
        }),
{
    let none = Seq::<EntryModel>::empty();
    let x = dated(a);
    let y = dated(b);
    lemma_dated_copy(a);
    lemma_dated_copy(b);
    lemma_one_version(x, y);
    lemma_one_version(a, b);
    lemma_one_version(b, a);
    lemma_one_version(y, x);
    time_goes_on(modified(a), modified(b));
    assert(all_dated(seq![a]) =~= seq![x]);
    assert(all_dated(seq![b]) =~= seq![y]);
    assert(seq![y].drop_first() =~= none);
    assert(newest_first(none) =~= none);
    assert(filed(none, y) =~= seq![y]);
    assert(newest_first(seq![y]) =~= seq![y]);
    assert(seq![y].drop_last() =~= none);
    assert(seq![x].drop_last() =~= none);
    assert(seq![x].last() == x && seq![y].last() == y);
    assert(compared(none, seq![x]) == (none, seq![x]));
    assert(place_of(none, y) == -1);
    assert(place_of(seq![x], y) == if same_version(x, y) {
        0int
    } else {
        -1
    });
    let (news, left) = compared(seq![y], seq![x]);
    if same_version(x, y) {
        assert(news == none);
    } else {
        assert(news =~= seq![y]);
        assert(left == seq![x]);
        assert(divergence(none, seq![x]) == (LogModel::empty(), seq![x]));
        assert(place_at(none, modified(y)) == -1);
        assert(news.drop_last() =~= none);
    }
    let na = |e: EntryModel| undated_note(false, e);
    let nb = |e: EntryModel| undated_note(true, e);
    assert(seq![a].drop_last() =~= none && seq![b].drop_last() =~= none);
    assert(collected(none, na) == LogModel::empty());
    assert(collected(none, nb) == LogModel::empty());
    assert(collected(seq![a], na) == LogModel::empty().plus(undated_note(false, a)));
    assert(collected(seq![b], nb) == LogModel::empty().plus(undated_note(true, b)));
    assert(history_notes(seq![a], seq![b]) == collected(seq![a], na).plus(collected(seq![b], nb)).plus(
        divergence(news, left).0,
    ));
}

/// A version that is replaced is not archived once more, where an archived version of the same moment
/// agrees with it. It is archived once otherwise.
pub proof fn replaced_version_is_archived_once(
    dest: EntryModel,
    source: EntryModel,
    target_present: bool,
    now: NaiveDateTime,
    x: EntryModel,
)
    requires
        dest != source,
        ticks_or(dest.times.last_modification, ticks(now)) != ticks_or(source.times.last_modification, 0),
        dest.parent == source.parent,
    ensures
        ({
            let m = past(reconciled_entry(dest, source, target_present, now));
            let most = if times_kept(past(dest), x) < times_kept(past(source), x) {
                times_kept(past(source), x)
            } else {
                times_kept(past(dest), x)
            };
            let known = times_kept(past(dest), dest) > 0 || times_kept(past(source), dest) > 0;
            &&& known ==> times_kept(m, x) == most
            &&& times_kept(m, x) <= most + 1
            &&& m.len() <= past(dest).len() + past(source).len() + 1
        }),
{
    let placed = placed_entry(dest, source, target_present);
    assert(placed == dest);
    let version = placed.with_history(None);
    let h = merged_history(past(dest), past(source));
    lemma_past(dest, source, target_present, now);
    merged_history_counts_versions(past(dest), past(source), x);
    merged_history_counts_versions(past(dest), past(source), dest);
    merged_history_is_made_of_both(past(dest), past(source));
    lemma_times_kept(h, dest);
    lemma_copies_kept(h, dest);
    lemma_filed_copies(h, version, x);
    lemma_times_kept(h, x);
    lemma_times_kept(filed(h, version), x);
    assert(seq![version].drop_last() =~= Seq::<EntryModel>::empty());
    assert(copies(seq![version], x) <= 1) by {
        assert(copies(seq![version].drop_last(), x) == 0);
    }
}

/// A history that is in order is given back when it is merged with itself or with an empty one, on either
/// side. Versions of the same moment keep their order.
pub proof fn ordered_history_is_given_back(history: Seq<EntryModel>)
    requires
        latest_first(history),
    ensures
        merged_history(history, history) == history,
        merged_history(history, Seq::empty()) == history,
        merged_history(Seq::empty(), history) == history,
{
    let none = Seq::<EntryModel>::empty();
    assert(all_dated(history) =~= history);
    assert(all_dated(none) =~= none);
    assert forall|i: int, j: int| 0 <= i < j < history.len() implies !modified(#[trigger] history[j]).is_after(
        modified(#[trigger] history[i]),
    ) by {
        time_goes_on(modified(history[j]), modified(history[i]));
        lemma_one_version(history[i], history[j]);
        lemma_one_version(history[j], history[i]);
    }
    lemma_in_order_already(history);
    lemma_no_news(history, history);
    lemma_nothing_known(history);
    assert(newest_first(none) =~= none);
    assert(history + none =~= history);
    assert(none + history =~= history);
}

} // verus!

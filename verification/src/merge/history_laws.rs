//! What holds of merged histories.
use vstd::prelude::*;

use crate::datetime::lemma_time_total;
use crate::db::database::lemma_push_contains;
use crate::db::entry::EntryModel;
use crate::merge::history::{
    all_dated, compared, dated, divergence, filed, history_notes, is_descending, keeps,
    lemma_place_of, merged_history, modified, newest_first, place_of, same_version, undated_note,
    unmatched,
};
use crate::merge::log::{collected, group_log, lemma_collected_uneventful, uneventful, LogModel};

verus! {

broadcast use group_log;

/// What stands in front of a sequence, and what the sequence holds.
proof fn lemma_front_contains(first: EntryModel, rest: Seq<EntryModel>)
    ensures
        forall|x: EntryModel| #[trigger] (seq![first] + rest).contains(x) <==> x == first || rest.contains(x),
{
    let out = seq![first] + rest;
    assert forall|x: EntryModel| #[trigger] out.contains(x) <==> x == first || rest.contains(x) by {
        if out.contains(x) {
            let i = choose|i: int| 0 <= i < out.len() && out[i] == x;
            if i > 0 {
                assert(rest[i - 1] == x);
            }
        }
        if x == first {
            assert(out[0] == x);
        }
        if rest.contains(x) {
            let i = choose|i: int| 0 <= i < rest.len() && rest[i] == x;
            assert(out[i + 1] == x);
        }
    }
}

/// A version is filed: the order is kept, and nothing is lost.
pub proof fn lemma_filed_in_order(versions: Seq<EntryModel>, e: EntryModel)
    ensures
        is_descending(versions) ==> is_descending(filed(versions, e)),
        forall|x: EntryModel| #[trigger] filed(versions, e).contains(x) <==> versions.contains(x) || x == e,
    decreases versions.len(),
{
    let out = filed(versions, e);
    if versions.len() > 0 && modified(versions[0]).is_after(modified(e)) {
        let first = versions[0];
        let rest = versions.drop_first();
        lemma_filed_in_order(rest, e);
        lemma_front_contains(first, rest);
        lemma_front_contains(first, filed(rest, e));
        assert(seq![first] + rest =~= versions);
        if is_descending(versions) {
            assert forall|i: int, j: int| 0 <= i < j < rest.len() implies !modified(#[trigger] rest[j]).is_after(
                modified(#[trigger] rest[i]),
            ) by {
                assert(rest[i] == versions[i + 1] && rest[j] == versions[j + 1]);
            }
            let tail = filed(rest, e);
            assert forall|i: int, j: int| 0 <= i < j < out.len() implies !modified(#[trigger] out[j]).is_after(
                modified(#[trigger] out[i]),
            ) by {
                assert(out[j] == tail[j - 1]);
                if i > 0 {
                    assert(out[i] == tail[i - 1]);
                } else {
                    assert(tail.contains(tail[j - 1]));
                    if rest.contains(tail[j - 1]) {
                        let k = choose|k: int| 0 <= k < rest.len() && rest[k] == tail[j - 1];
                        assert(versions[k + 1] == rest[k]);
                    }
                }
            }
        }
    } else {
        lemma_front_contains(e, versions);
        if is_descending(versions) {
            assert forall|i: int, j: int| 0 <= i < j < out.len() implies !modified(#[trigger] out[j]).is_after(
                modified(#[trigger] out[i]),
            ) by {
                assert(out[j] == versions[j - 1]);
                if i > 0 {
                    assert(out[i] == versions[i - 1]);
                } else if j > 1 {
                    assert(!modified(versions[j - 1]).is_after(modified(versions[0])));
                }
            }
        }
    }
}

/// Sorting puts versions in order and loses none.
pub proof fn lemma_newest_first(versions: Seq<EntryModel>)
    ensures
        is_descending(newest_first(versions)),
        forall|x: EntryModel| #[trigger] newest_first(versions).contains(x) <==> versions.contains(x),
    decreases versions.len(),
{
    if versions.len() > 0 {
        lemma_newest_first(versions.drop_first());
        lemma_filed_in_order(newest_first(versions.drop_first()), versions[0]);
        lemma_front_contains(versions[0], versions.drop_first());
        assert(seq![versions[0]] + versions.drop_first() =~= versions);
    }
}

/// Sorting changes nothing where the versions are in order.
pub proof fn lemma_in_order_already(versions: Seq<EntryModel>)
    requires
        is_descending(versions),
    ensures
        newest_first(versions) == versions,
    decreases versions.len(),
{
    if versions.len() > 0 {
        let rest = versions.drop_first();
        assert forall|i: int, j: int| 0 <= i < j < rest.len() implies !modified(#[trigger] rest[j]).is_after(
            modified(#[trigger] rest[i]),
        ) by {
            assert(rest[i] == versions[i + 1] && rest[j] == versions[j + 1]);
        }
        lemma_in_order_already(rest);
        if rest.len() > 0 {
            assert(rest[0] == versions[1]);
            assert(!modified(versions[1]).is_after(modified(versions[0])));
        }
        assert(seq![versions[0]] + rest =~= versions);
    }
}

/// How many versions are the same as another one.
pub open spec fn copies(versions: Seq<EntryModel>, x: EntryModel) -> nat
    decreases versions.len(),
{
    if versions.len() == 0 {
        0
    } else {
        copies(versions.drop_last(), x) + if same_version(versions.last(), x) {
            1nat
        } else {
            0nat
        }
    }
}

/// The copies in two sequences.
proof fn lemma_copies_plus(a: Seq<EntryModel>, b: Seq<EntryModel>, x: EntryModel)
    ensures
        copies(a + b, x) == copies(a, x) + copies(b, x),
    decreases b.len(),
{
    if b.len() == 0 {
        assert(a + b =~= a);
    } else {
        assert((a + b).drop_last() =~= a + b.drop_last());
        assert((a + b).last() == b.last());
        lemma_copies_plus(a, b.drop_last(), x);
    }
}

/// The copy that a single version is.
proof fn lemma_copies_one(e: EntryModel, x: EntryModel)
    ensures
        copies(seq![e], x) == if same_version(e, x) {
            1nat
        } else {
            0nat
        },
{
    assert(seq![e].drop_last() =~= Seq::<EntryModel>::empty());
    assert(copies(Seq::<EntryModel>::empty(), x) == 0);
}

/// The copies without one of the versions.
proof fn lemma_copies_remove(versions: Seq<EntryModel>, at: int, x: EntryModel)
    requires
        0 <= at < versions.len(),
    ensures
        copies(versions, x) == copies(versions.remove(at), x) + if same_version(versions[at], x) {
            1nat
        } else {
            0nat
        },
{
    let a = versions.take(at);
    let b = versions.skip(at + 1);
    let e = versions[at];
    assert(versions =~= a + (seq![e] + b));
    assert(versions.remove(at) =~= a + b);
    lemma_copies_plus(a, seq![e] + b, x);
    lemma_copies_plus(seq![e], b, x);
    lemma_copies_plus(a, b, x);
    lemma_copies_one(e, x);
}

/// Versions that are the same have the same copies.
proof fn lemma_copies_alike(versions: Seq<EntryModel>, x: EntryModel, y: EntryModel)
    requires
        same_version(x, y),
    ensures
        copies(versions, x) == copies(versions, y),
    decreases versions.len(),
{
    if versions.len() > 0 {
        lemma_copies_alike(versions.drop_last(), x, y);
    }
}

/// Where there is a copy, the version is kept.
pub proof fn lemma_copies_kept(versions: Seq<EntryModel>, x: EntryModel)
    ensures
        copies(versions, x) > 0 <==> keeps(versions, x),
    decreases versions.len(),
{
    if versions.len() > 0 {
        let front = versions.drop_last();
        let last = versions.last();
        lemma_copies_kept(front, x);
        lemma_push_contains(front, last);
        assert(front.push(last) =~= versions);
        if keeps(front, x) {
            let y = choose|y: EntryModel| #[trigger] front.contains(y) && same_version(y, x);
            assert(versions.contains(y) && same_version(y, x));
        }
        if same_version(last, x) {
            assert(versions.contains(last) && same_version(last, x));
        }
        if keeps(versions, x) {
            let y = choose|y: EntryModel| #[trigger] versions.contains(y) && same_version(y, x);
            if y != last {
                assert(front.contains(y) && same_version(y, x));
            }
        }
    }
}

/// Filing adds a copy of the version that is filed.
pub proof fn lemma_filed_copies(versions: Seq<EntryModel>, e: EntryModel, x: EntryModel)
    ensures
        copies(filed(versions, e), x) == copies(versions, x) + copies(seq![e], x),
        filed(versions, e).len() == versions.len() + 1,
        filed(versions, e).to_multiset() =~= versions.to_multiset().insert(e),
    decreases versions.len(),
{
    broadcast use vstd::seq_lib::group_to_multiset_ensures;

    if versions.len() > 0 && modified(versions[0]).is_after(modified(e)) {
        let first = versions[0];
        let rest = versions.drop_first();
        lemma_filed_copies(rest, e, x);
        assert(versions =~= seq![first] + rest);
        lemma_copies_plus(seq![first], rest, x);
        lemma_copies_plus(seq![first], filed(rest, e), x);
        assert(rest.insert(0, first) =~= versions);
        assert(filed(rest, e).insert(0, first) =~= filed(versions, e));
    } else {
        lemma_copies_plus(seq![e], versions, x);
        assert(versions.insert(0, e) =~= filed(versions, e));
    }
}

/// Sorting keeps every copy.
pub proof fn lemma_sorted_copies(versions: Seq<EntryModel>, x: EntryModel)
    ensures
        copies(newest_first(versions), x) == copies(versions, x),
        newest_first(versions).len() == versions.len(),
        newest_first(versions).to_multiset() =~= versions.to_multiset(),
    decreases versions.len(),
{
    broadcast use vstd::seq_lib::group_to_multiset_ensures;

    if versions.len() > 0 {
        let rest = versions.drop_first();
        lemma_sorted_copies(rest, x);
        lemma_filed_copies(newest_first(rest), versions[0], x);
        assert(versions =~= seq![versions[0]] + rest);
        lemma_copies_plus(seq![versions[0]], rest, x);
        assert(rest.insert(0, versions[0]) =~= versions);
    } else {
        assert(versions =~= newest_first(versions));
    }
}

/// Each known version accounts for one version, as far as there are any.
proof fn lemma_compared(versions: Seq<EntryModel>, known: Seq<EntryModel>, x: EntryModel)
    ensures
        ({
            let (news, left) = compared(versions, known);
            &&& copies(news, x) == if copies(versions, x) > copies(known, x) {
                copies(versions, x) - copies(known, x)
            } else {
                0
            }
            &&& copies(left, x) == if copies(known, x) > copies(versions, x) {
                copies(known, x) - copies(versions, x)
            } else {
                0
            }
            &&& news.len() + known.len() == versions.len() + left.len()
            &&& news.to_multiset().subset_of(versions.to_multiset())
            &&& forall|v: EntryModel| #[trigger] news.contains(v) ==> versions.contains(v)
        }),
    decreases versions.len(),
{
    broadcast use vstd::seq_lib::group_to_multiset_ensures;

    if versions.len() > 0 {
        let front = versions.drop_last();
        let e = versions.last();
        let (news, left) = compared(front, known);
        let at = place_of(left, e);
        lemma_compared(front, known, x);
        lemma_compared(front, known, e);
        lemma_place_of(left, e);
        lemma_copies_kept(left, e);
        lemma_push_contains(front, e);
        lemma_push_contains(news, e);
        assert(front.push(e) =~= versions);
        if same_version(e, x) {
            lemma_copies_alike(left, e, x);
            lemma_copies_alike(known, e, x);
            lemma_copies_alike(front, e, x);
        }
        if at >= 0 {
            lemma_copies_remove(left, at, x);
            assert(news.to_multiset().subset_of(versions.to_multiset())) by {
                assert(versions.to_multiset() =~= front.to_multiset().insert(e));
            }
        } else {
            assert(news.push(e).drop_last() =~= news);
            assert(news.push(e).to_multiset().subset_of(versions.to_multiset())) by {
                assert(versions.to_multiset() =~= front.to_multiset().insert(e));
                assert(news.push(e).to_multiset() =~= news.to_multiset().insert(e));
            }
        }
    } else {
        assert(versions =~= Seq::<EntryModel>::empty());
    }
}

/// Where nothing is known, all versions are news.
pub proof fn lemma_nothing_known(versions: Seq<EntryModel>)
    ensures
        compared(versions, Seq::empty()) == (versions, Seq::<EntryModel>::empty()),
    decreases versions.len(),
{
    if versions.len() > 0 {
        lemma_nothing_known(versions.drop_last());
        assert(versions.drop_last().push(versions.last()) =~= versions);
    } else {
        assert(versions =~= Seq::<EntryModel>::empty());
    }
}

/// Where each version has as many copies among the known ones, none is news.
pub proof fn lemma_no_news(versions: Seq<EntryModel>, known: Seq<EntryModel>)
    requires
        forall|x: EntryModel| copies(versions, x) <= #[trigger] copies(known, x),
    ensures
        compared(versions, known).0 == Seq::<EntryModel>::empty(),
{
    let news = compared(versions, known).0;
    if news.len() > 0 {
        let x = news[0];
        lemma_compared(versions, known, x);
        assert(copies(versions, x) <= copies(known, x));
        lemma_copies_kept(news, x);
        assert(news.contains(x) && same_version(x, x));
    }
    assert(news =~= Seq::<EntryModel>::empty());
}

/// What a history holds of two others.
proof fn lemma_merged_contains(dest: Seq<EntryModel>, source: Seq<EntryModel>)
    ensures
        forall|x: EntryModel| #[trigger] all_dated(dest).contains(x) ==> merged_history(dest, source).contains(x),
        forall|x: EntryModel| #[trigger]
            merged_history(dest, source).contains(x) ==> all_dated(dest).contains(x) || all_dated(source).contains(x),
{
    let d = all_dated(dest);
    let s = all_dated(source);
    let n = unmatched(dest, source).0;
    let all = d + n;
    lemma_newest_first(s);
    lemma_newest_first(all);
    if n.len() > 0 {
        lemma_compared(newest_first(s), d, n[0]);
    }
    assert forall|x: EntryModel| #[trigger] d.contains(x) implies merged_history(dest, source).contains(x) by {
        let i = choose|i: int| 0 <= i < d.len() && d[i] == x;
        assert(all[i] == x);
        assert(all.contains(x));
    }
    assert forall|x: EntryModel| #[trigger] merged_history(dest, source).contains(x) implies d.contains(x)
        || s.contains(x) by {
        assert(all.contains(x));
        let i = choose|i: int| 0 <= i < all.len() && all[i] == x;
        if i >= d.len() {
            assert(n[i - d.len()] == x);
            assert(n.contains(x));
            assert(newest_first(s).contains(x));
        } else {
            assert(d[i] == x);
        }
    }
}

/// A merged history has of each version as many copies as the side that has more of them.
pub proof fn merged_history_pairs_versions(dest: Seq<EntryModel>, source: Seq<EntryModel>, x: EntryModel)
    ensures
        copies(merged_history(dest, source), x) == if copies(all_dated(dest), x) < copies(all_dated(source), x) {
            copies(all_dated(source), x)
        } else {
            copies(all_dated(dest), x)
        },
{
    let d = all_dated(dest);
    let s = all_dated(source);
    let n = unmatched(dest, source).0;
    lemma_sorted_copies(s, x);
    lemma_compared(newest_first(s), d, x);
    lemma_copies_plus(d, n, x);
    lemma_sorted_copies(d + n, x);
}

/// A merged history holds the destination's versions and some of the source's, each as often as it
/// is there. It is at least as long as the longer of the two, and at most as long as both.
pub proof fn merged_history_holds_both(dest: Seq<EntryModel>, source: Seq<EntryModel>)
    ensures
        ({
            let merged = merged_history(dest, source);
            let d = all_dated(dest).to_multiset();
            &&& d.subset_of(merged.to_multiset())
            &&& merged.to_multiset().sub(d).subset_of(all_dated(source).to_multiset())
            &&& dest.len() <= merged.len()
            &&& source.len() <= merged.len()
            &&& merged.len() <= dest.len() + source.len()
        }),
{
    let d = all_dated(dest);
    let s = all_dated(source);
    let (n, left) = unmatched(dest, source);
    let any = arbitrary::<EntryModel>();
    lemma_sorted_copies(s, any);
    lemma_compared(newest_first(s), d, any);
    lemma_sorted_copies(d + n, any);
    lemma_matched_length(newest_first(s), d);
    vstd::seq_lib::lemma_multiset_commutative(d, n);
    assert((d + n).to_multiset().sub(d.to_multiset()) =~= n.to_multiset());
}

/// No known version is left over that was not there, and no more versions are news than there are.
proof fn lemma_matched_length(versions: Seq<EntryModel>, known: Seq<EntryModel>)
    ensures
        compared(versions, known).0.len() <= versions.len(),
        compared(versions, known).1.len() <= known.len(),
    decreases versions.len(),
{
    if versions.len() > 0 {
        lemma_matched_length(versions.drop_last(), known);
        lemma_place_of(compared(versions.drop_last(), known).1, versions.last());
    }
}

/// A merged history has its latest version first.
pub proof fn merged_history_is_newest_first(dest: Seq<EntryModel>, source: Seq<EntryModel>)
    ensures
        is_descending(merged_history(dest, source)),
{
    lemma_newest_first(all_dated(dest) + unmatched(dest, source).0);
}

/// A merged history loses no version: it holds every version of the destination, and every version
/// of the source or one of the same moment that agrees with it in what counts.
pub proof fn merged_history_keeps_every_version(dest: Seq<EntryModel>, source: Seq<EntryModel>, e: EntryModel)
    ensures
        dest.contains(e) ==> merged_history(dest, source).contains(dated(e)),
        source.contains(e) ==> keeps(merged_history(dest, source), dated(e)),
{
    lemma_merged_contains(dest, source);
    if dest.contains(e) {
        let i = choose|i: int| 0 <= i < dest.len() && dest[i] == e;
        assert(all_dated(dest)[i] == dated(e));
        assert(all_dated(dest).contains(dated(e)));
    }
    if source.contains(e) {
        let i = choose|i: int| 0 <= i < source.len() && source[i] == e;
        assert(all_dated(source)[i] == dated(e));
        assert(all_dated(source).contains(dated(e)) && same_version(dated(e), dated(e)));
        lemma_copies_kept(all_dated(source), dated(e));
        lemma_copies_kept(merged_history(dest, source), dated(e));
        merged_history_pairs_versions(dest, source, dated(e));
    }
}

/// A merged history invents no version.
pub proof fn merged_history_adds_no_version(dest: Seq<EntryModel>, source: Seq<EntryModel>, e: EntryModel)
    requires
        merged_history(dest, source).contains(e),
    ensures
        exists|v: EntryModel| (dest.contains(v) || source.contains(v)) && e == #[trigger] dated(v),
{
    lemma_merged_contains(dest, source);
    if all_dated(dest).contains(e) {
        let i = choose|i: int| 0 <= i < dest.len() && all_dated(dest)[i] == e;
        assert(dest.contains(dest[i]) && e == dated(dest[i]));
    } else {
        let i = choose|i: int| 0 <= i < source.len() && all_dated(source)[i] == e;
        assert(source.contains(source[i]) && e == dated(source[i]));
    }
}

/// Every version of a merged history is dated.
proof fn lemma_merged_dated(dest: Seq<EntryModel>, source: Seq<EntryModel>)
    ensures
        all_dated(merged_history(dest, source)) == merged_history(dest, source),
{
    let m = merged_history(dest, source);
    assert forall|i: int| 0 <= i < m.len() implies dated(#[trigger] m[i]) == m[i] by {
        assert(m.contains(m[i]));
        merged_history_adds_no_version(dest, source, m[i]);
    }
    assert(all_dated(m) =~= m);
}

/// A history that is in order and has every copy of another one's versions is given back when the
/// other one is merged into it.
pub proof fn lemma_merged_already(versions: Seq<EntryModel>, source: Seq<EntryModel>)
    requires
        all_dated(versions) == versions,
        is_descending(versions),
        forall|x: EntryModel| copies(all_dated(source), x) <= #[trigger] copies(versions, x),
    ensures
        merged_history(versions, source) == versions,
{
    let s = newest_first(all_dated(source));
    assert forall|x: EntryModel| copies(s, x) <= #[trigger] copies(versions, x) by {
        lemma_sorted_copies(all_dated(source), x);
    }
    lemma_no_news(s, versions);
    assert(versions + Seq::<EntryModel>::empty() =~= versions);
    lemma_in_order_already(versions);
}

/// Merging a history again changes nothing.
pub proof fn merging_a_history_again_changes_nothing(dest: Seq<EntryModel>, source: Seq<EntryModel>)
    ensures
        merged_history(merged_history(dest, source), source) == merged_history(dest, source),
{
    let m = merged_history(dest, source);
    lemma_merged_dated(dest, source);
    merged_history_is_newest_first(dest, source);
    assert forall|x: EntryModel| copies(all_dated(source), x) <= #[trigger] copies(m, x) by {
        merged_history_pairs_versions(dest, source, x);
    }
    lemma_merged_already(m, source);
}

/// Merging a history again changes nothing, if one more version was filed meanwhile.
pub proof fn lemma_filed_again(dest: Seq<EntryModel>, source: Seq<EntryModel>, e: EntryModel)
    requires
        e.times.last_modification is Some,
    ensures
        merged_history(filed(merged_history(dest, source), e), source) == filed(merged_history(dest, source), e),
{
    let m = merged_history(dest, source);
    let all = filed(m, e);
    lemma_merged_dated(dest, source);
    merged_history_is_newest_first(dest, source);
    lemma_filed_in_order(m, e);
    assert forall|i: int| 0 <= i < all.len() implies dated(#[trigger] all[i]) == all[i] by {
        assert(all.contains(all[i]));
        if m.contains(all[i]) {
            let k = choose|k: int| 0 <= k < m.len() && m[k] == all[i];
            assert(all_dated(m)[k] == dated(m[k]));
        }
    }
    assert(all_dated(all) =~= all);
    assert forall|x: EntryModel| copies(all_dated(source), x) <= #[trigger] copies(all, x) by {
        merged_history_pairs_versions(dest, source, x);
        lemma_filed_copies(m, e, x);
    }
    lemma_merged_already(all, source);
}

/// Diverged versions are no events.
proof fn lemma_divergence_uneventful(versions: Seq<EntryModel>, others: Seq<EntryModel>)
    ensures
        uneventful(divergence(versions, others).0, false),
    decreases versions.len(),
{
    if versions.len() > 0 {
        lemma_divergence_uneventful(versions.drop_last(), others);
    }
}

/// Where there is nothing else, nothing has diverged.
proof fn lemma_nothing_diverged(versions: Seq<EntryModel>)
    ensures
        divergence(versions, Seq::empty()) == (LogModel::empty(), Seq::<EntryModel>::empty()),
    decreases versions.len(),
{
    if versions.len() > 0 {
        lemma_nothing_diverged(versions.drop_last());
    }
}

/// Merging histories reports warnings at most.
pub proof fn lemma_history_uneventful(dest: Seq<EntryModel>, source: Seq<EntryModel>)
    ensures
        uneventful(history_notes(dest, source), false),
{
    lemma_collected_uneventful(dest, |e: EntryModel| undated_note(false, e), false);
    lemma_collected_uneventful(source, |e: EntryModel| undated_note(true, e), false);
    let (news, left) = unmatched(dest, source);
    lemma_divergence_uneventful(news, left);
}

/// All versions are dated and stand in strictly descending order of time.
pub open spec fn is_orderly(versions: Seq<EntryModel>) -> bool {
    &&& forall|i: int| 0 <= i < versions.len() ==> (#[trigger] versions[i]).times.last_modification is Some
    &&& forall|i: int, j: int|
        0 <= i < j < versions.len() ==> modified(#[trigger] versions[i]).is_after(modified(#[trigger] versions[j]))
}

/// Nothing is reported where there is nothing to report about any version.
proof fn lemma_collected_nothing(versions: Seq<EntryModel>, notes: spec_fn(EntryModel) -> LogModel)
    requires
        forall|i: int| 0 <= i < versions.len() ==> notes(#[trigger] versions[i]) == LogModel::empty(),
    ensures
        collected(versions, notes) == LogModel::empty(),
{
    lemma_collected_uneventful(versions, notes, true);
    assert(collected(versions, notes).events =~= LogModel::empty().events);
    assert(collected(versions, notes).warnings =~= LogModel::empty().warnings);
}

/// An orderly history is given back when it is merged with itself or with an empty one, on either
/// side, and nothing is reported.
pub proof fn orderly_history_is_given_back(versions: Seq<EntryModel>)
    requires
        is_orderly(versions),
    ensures
        merged_history(versions, versions) == versions,
        merged_history(versions, Seq::empty()) == versions,
        merged_history(Seq::empty(), versions) == versions,
        history_notes(versions, versions) == LogModel::empty(),
        history_notes(versions, Seq::empty()) == LogModel::empty(),
        history_notes(Seq::empty(), versions) == LogModel::empty(),
{
    let none = Seq::<EntryModel>::empty();
    assert(all_dated(versions) =~= versions);
    assert(all_dated(none) =~= none);
    assert forall|i: int, j: int| 0 <= i < j < versions.len() implies !modified(#[trigger] versions[j]).is_after(
        modified(#[trigger] versions[i]),
    ) by {
        lemma_time_total(modified(versions[i]), modified(versions[j]));
    }
    lemma_in_order_already(versions);
    lemma_no_news(versions, versions);
    lemma_nothing_known(versions);
    lemma_nothing_diverged(versions);
    assert(newest_first(none) =~= none);
    assert(versions + none =~= versions);
    assert(none + versions =~= versions);
    lemma_collected_nothing(versions, |e: EntryModel| undated_note(false, e));
    lemma_collected_nothing(versions, |e: EntryModel| undated_note(true, e));
    lemma_collected_nothing(none, |e: EntryModel| undated_note(false, e));
    lemma_collected_nothing(none, |e: EntryModel| undated_note(true, e));
}

} // verus!

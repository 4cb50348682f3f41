//! Bringing attached files from one database to another, and the index of who refers to them.
use vstd::prelude::*;

use crate::datum::Datum;
use crate::db::attachment::{first_unlisted, Attachment, AttachmentModel};
use crate::db::database::{lemma_next_unseen, lemma_push_contains, Database, DatabaseModel};
use crate::db::entry::{Entry, EntryModel, History};
use crate::db::value::Value;
use crate::ids::{AttachmentId, EntryId};
use crate::merge::log::MergeError;
use crate::merge::references::{find_places, places, refers_at, Place, Reference};
use crate::text_map::TextMap;

verus! {

/// A table of attachments.
pub type Pool = Map<AttachmentId, AttachmentModel>;

/// The attachment of a table that stands for one of another database with certain data: the one
/// with the same identifier, if it has the data, and otherwise the first one that has them.
pub open spec fn stands_for(pool: Pool, id: AttachmentId, data: Value<Seq<u8>>, to: AttachmentId) -> bool {
    &&& pool.contains_key(to)
    &&& pool[to].data == data
    &&& to == id || {
        &&& !(pool.contains_key(id) && pool[id].data == data)
        &&& forall|b: AttachmentId| #[trigger]
            pool.contains_key(b) && pool[b].data == data ==> to.number <= b.number
    }
}

/// The identifiers of attachments in one database, replaced by those of the attachments that stand
/// for them in another database.
pub open spec fn remapped(
    from: Map<Seq<char>, AttachmentId>,
    to: Map<Seq<char>, AttachmentId>,
    source: Pool,
    dest: Pool,
) -> bool {
    &&& to.dom() == from.dom()
    &&& forall|name: Seq<char>| #[trigger]
        from.contains_key(name) ==> source.contains_key(from[name]) && stands_for(
            dest,
            from[name],
            source[from[name]].data,
            to[name],
        )
}

/// A version of an entry, with the identifiers of its attachments replaced.
pub open spec fn imported_version(from: EntryModel, to: EntryModel, source: Pool, dest: Pool) -> bool {
    &&& to == EntryModel { attachments: to.attachments, ..from }
    &&& remapped(from.attachments, to.attachments, source, dest)
}

/// An entry of one database as another database holds it: the identifiers of its attachments are
/// replaced, in the current version and in the archived ones.
pub open spec fn imported(from: EntryModel, to: EntryModel, source: Pool, dest: Pool) -> bool {
    &&& imported_version(from.with_history(None), to.with_history(None), source, dest)
    &&& (from.history is Some <==> to.history is Some)
    &&& from.history is Some ==> {
        &&& to.history->0.len() == from.history->0.len()
        &&& forall|i: int|
            0 <= i < from.history->0.len() ==> #[trigger] imported_version(
                from.history->0[i],
                to.history->0[i],
                source,
                dest,
            )
    }
}

/// A table of attachments after attachments of another database were brought in. What was there
/// stays. What is new comes from the other database, has data that nothing else in the table has,
/// and is not referred to yet.
pub open spec fn pool_grown(before: Pool, after: Pool, source: Pool) -> bool {
    &&& forall|a: AttachmentId| #[trigger]
        before.contains_key(a) ==> after.contains_key(a) && after[a] == before[a]
    &&& forall|a: AttachmentId| #[trigger]
        after.contains_key(a) && !before.contains_key(a) ==> after[a].id == a && after[a].entries == Set::<
            Place,
        >::empty() && exists|s: AttachmentId| #[trigger] source.contains_key(s) && source[s].data == after[a].data
    &&& forall|a: AttachmentId, b: AttachmentId| #[trigger]
        after.contains_key(a) && #[trigger] after.contains_key(b) && !before.contains_key(a) && a != b
            ==> after[a].data != after[b].data
}

/// A version or one of the archived versions of an entry uses an attachment.
pub open spec fn entry_uses(entry: EntryModel, id: AttachmentId) -> bool {
    ||| entry.attachments.contains_value(id)
    ||| entry.history is Some && exists|i: int|
        0 <= i < entry.history->0.len() && (#[trigger] entry.history->0[i]).attachments.contains_value(id)
}

/// What is new in a table of attachments is used by an entry.
pub open spec fn new_are_used(before: Pool, after: Pool, entry: EntryModel) -> bool {
    forall|a: AttachmentId| #[trigger]
        after.contains_key(a) && !before.contains_key(a) ==> entry_uses(entry, a)
}

/// No entry of a table uses an attachment under an identifier.
pub open spec fn unused(entries: Map<EntryId, EntryModel>, id: AttachmentId) -> bool {
    forall|e: EntryId| #[trigger] entries.contains_key(e) ==> !entry_uses(entries[e], id)
}

/// What is new in a table of attachments has an identifier that no entry of a table uses, not even
/// one that refers to an attachment that is not there.
#[verifier::opaque]
pub open spec fn new_are_free(entries: Map<EntryId, EntryModel>, before: Pool, after: Pool) -> bool {
    forall|a: AttachmentId| #[trigger]
        after.contains_key(a) && !before.contains_key(a) ==> unused(entries, a)
}

/// What is new after two steps has a free identifier, if what is new after each of them has one.
pub proof fn lemma_free_twice(entries: Map<EntryId, EntryModel>, a: Pool, b: Pool, c: Pool)
    requires
        new_are_free(entries, a, b),
        new_are_free(entries, b, c),
    ensures
        new_are_free(entries, a, c),
{
    reveal(new_are_free);
}

/// Where nothing is new, nothing is new under an identifier in use.
pub proof fn lemma_free_same(entries: Map<EntryId, EntryModel>, a: Pool)
    ensures
        new_are_free(entries, a, a),
{
    reveal(new_are_free);
}

/// The entries of a table are still there, and use what they used.
#[verifier::opaque]
pub open spec fn keeps_uses(before: Map<EntryId, EntryModel>, after: Map<EntryId, EntryModel>) -> bool {
    forall|e: EntryId, a: AttachmentId| #[trigger]
        before.contains_key(e) && #[trigger] entry_uses(before[e], a) ==> after.contains_key(e) && entry_uses(
            after[e],
            a,
        )
}

/// What is free for entries that use more is free.
pub proof fn lemma_free_fewer(
    fewer: Map<EntryId, EntryModel>,
    more: Map<EntryId, EntryModel>,
    before: Pool,
    after: Pool,
)
    requires
        keeps_uses(fewer, more),
        new_are_free(more, before, after),
    ensures
        new_are_free(fewer, before, after),
{
    reveal(new_are_free);
    reveal(keeps_uses);
    assert forall|a: AttachmentId| #[trigger] after.contains_key(a) && !before.contains_key(a) implies unused(fewer, a) by {
        assert(unused(more, a));
        assert forall|e: EntryId| #[trigger] fewer.contains_key(e) implies !entry_uses(fewer[e], a) by {
            if entry_uses(fewer[e], a) {
                assert(more.contains_key(e) && entry_uses(more[e], a));
            }
        }
    }
}

/// A table in which one more entry stands, or one that uses at least what it used.
pub proof fn lemma_keeps_step(
    before: Map<EntryId, EntryModel>,
    mid: Map<EntryId, EntryModel>,
    e: EntryId,
    entry: EntryModel,
)
    requires
        keeps_uses(before, mid),
        mid.contains_key(e) ==> forall|a: AttachmentId| #[trigger] entry_uses(mid[e], a) ==> entry_uses(entry, a),
    ensures
        keeps_uses(before, mid.insert(e, entry)),
{
    reveal(keeps_uses);
}

/// A table that has grown twice has grown.
pub proof fn lemma_pool_grown_twice(a: Pool, b: Pool, c: Pool, source: Pool)
    requires
        pool_grown(a, b, source),
        pool_grown(b, c, source),
    ensures
        pool_grown(a, c, source),
{
    assert forall|x: AttachmentId, y: AttachmentId| #[trigger]
        c.contains_key(x) && #[trigger] c.contains_key(y) && !a.contains_key(x) && x != y implies c[x].data
        != c[y].data by {
        if b.contains_key(x) && !b.contains_key(y) {
            assert(c[y].data != c[x].data);
        }
    }
    assert forall|x: AttachmentId| #[trigger] c.contains_key(x) && !a.contains_key(x) implies c[x].id == x
        && c[x].entries == Set::<Place>::empty() && exists|s: AttachmentId| #[trigger]
        source.contains_key(s) && source[s].data == c[x].data by {
        if b.contains_key(x) {
            assert(c[x] == b[x]);
        }
    }
}

/// What stands for an attachment does so as the table grows.
pub proof fn lemma_stands_grown(before: Pool, after: Pool, source: Pool)
    requires
        pool_grown(before, after, source),
    ensures
        forall|id: AttachmentId, data: Value<Seq<u8>>, to: AttachmentId| #[trigger]
            stands_for(before, id, data, to) ==> stands_for(after, id, data, to),
{
    assert forall|id: AttachmentId, data: Value<Seq<u8>>, to: AttachmentId| #[trigger]
        stands_for(before, id, data, to) implies stands_for(after, id, data, to) by {
        assert forall|b: AttachmentId| #[trigger]
            after.contains_key(b) && after[b].data == data && to != id implies before.contains_key(b) by {
            if !before.contains_key(b) {
                assert(after.contains_key(to));
                assert(after[b].data != after[to].data);
            }
        }
    }
}

/// A table in which nothing changed has grown.
pub proof fn lemma_pool_same(a: Pool, source: Pool)
    ensures
        pool_grown(a, a, source),
{
}

/// What an entry uses is in the table from which it was brought in, and what its copy uses is in
/// the table into which it was.
pub proof fn lemma_import_uses(from: EntryModel, to: EntryModel, source: Pool, dest: Pool)
    requires
        imported(from, to, source, dest),
    ensures
        forall|a: AttachmentId| #[trigger] entry_uses(from, a) ==> source.contains_key(a),
        forall|a: AttachmentId| #[trigger] entry_uses(to, a) ==> dest.contains_key(a),
{
    assert forall|a: AttachmentId| #[trigger] entry_uses(from, a) implies source.contains_key(a) by {
        if from.attachments.contains_value(a) {
            let name = choose|name: Seq<char>| from.attachments.contains_key(name) && from.attachments[name] == a;
            assert(from.with_history(None).attachments.contains_key(name));
        } else {
            let i = choose|i: int|
                0 <= i < from.history->0.len() && (#[trigger] from.history->0[i]).attachments.contains_value(a);
            assert(imported_version(from.history->0[i], to.history->0[i], source, dest));
            let name = choose|name: Seq<char>|
                from.history->0[i].attachments.contains_key(name) && from.history->0[i].attachments[name] == a;
            assert(from.history->0[i].attachments.contains_key(name));
        }
    }
    assert forall|a: AttachmentId| #[trigger] entry_uses(to, a) implies dest.contains_key(a) by {
        if to.attachments.contains_value(a) {
            let name = choose|name: Seq<char>| to.attachments.contains_key(name) && to.attachments[name] == a;
            assert(to.attachments.dom().contains(name));
            assert(from.with_history(None).attachments.dom().contains(name));
            assert(from.with_history(None).attachments.contains_key(name));
        } else {
            let i = choose|i: int|
                0 <= i < to.history->0.len() && (#[trigger] to.history->0[i]).attachments.contains_value(a);
            assert(imported_version(from.history->0[i], to.history->0[i], source, dest));
            let name = choose|name: Seq<char>|
                to.history->0[i].attachments.contains_key(name) && to.history->0[i].attachments[name] == a;
            assert(to.history->0[i].attachments.dom().contains(name));
            assert(from.history->0[i].attachments.dom().contains(name));
            assert(from.history->0[i].attachments.contains_key(name));
        }
    }
}

/// What was brought in stays brought in as the table grows.
pub proof fn lemma_imported_grown(from: EntryModel, to: EntryModel, source: Pool, before: Pool, after: Pool)
    requires
        imported(from, to, source, before),
        pool_grown(before, after, source),
    ensures
        imported(from, to, source, after),
{
    lemma_stands_grown(before, after, source);
    assert forall|i: int| 0 <= i < from.history->0.len() && from.history is Some implies #[trigger] imported_version(
        from.history->0[i],
        to.history->0[i],
        source,
        after,
    ) by {
        assert(imported_version(from.history->0[i], to.history->0[i], source, before));
    }
}

/// The first identifier of an attachment with the given data, if the database has one.
fn find_data(db: &Database, data: &Value<Vec<u8>>) -> (found: Option<AttachmentId>)
    ensures
        match found {
            Some(a) => db@.attachments.contains_key(a) && db@.attachments[a].data == data.deep_view()
                && forall|b: AttachmentId| #[trigger]
                db@.attachments.contains_key(b) && db@.attachments[b].data == data.deep_view() ==> a.number
                    <= b.number,
            None => forall|a: AttachmentId| #[trigger]
                db@.attachments.contains_key(a) ==> db@.attachments[a].data != data.deep_view(),
        },
{
    let ghost pool = db@.attachments;
    let ids: Vec<AttachmentId> = db.attachment_ids();
    let mut found: Option<AttachmentId> = None;
    let mut i: usize = 0;
    while i < ids.len()
        invariant
            i <= ids@.len(),
            pool == db@.attachments,
            forall|a: AttachmentId| #[trigger] ids@.contains(a) <==> pool.contains_key(a),
            found matches Some(a) ==> pool.contains_key(a) && pool[a].data == data.deep_view(),
            forall|j: int|
                0 <= j < i && pool[#[trigger] ids@[j]].data == data.deep_view() ==> found is Some
                    && found->0.number <= ids@[j].number,
        decreases ids@.len() - i,
    {
        assert(ids@.contains(ids@[i as int]));
        match db.attachment(ids[i]) {
            Some(known) => {
                if known.data.same(data) {
                    let is_first: bool = match found {
                        Some(a) => ids[i].number < a.number,
                        None => true,
                    };
                    if is_first {
                        found = Some(ids[i]);
                    }
                }
            },
            None => {},
        }
        i = i + 1;
    }
    assert forall|b: AttachmentId| #[trigger] pool.contains_key(b) && pool[b].data == data.deep_view() implies found is Some
        && found->0.number <= b.number by {
        assert(ids@.contains(b));
        let j = choose|j: int| 0 <= j < ids@.len() && ids@[j] == b;
        assert(pool[ids@[j]].data == data.deep_view());
    }
    found
}

/// Adds the attachments of a version to a list.
fn list_attachments(attachments: &TextMap<AttachmentId>, ids: &mut Vec<AttachmentId>)
    ensures
        forall|a: AttachmentId| #[trigger] old(ids)@.contains(a) ==> final(ids)@.contains(a),
        forall|a: AttachmentId| #[trigger]
            attachments.deep_view().contains_value(a) ==> final(ids)@.contains(a),
{
    let mut i: usize = 0;
    while i < attachments.len()
        invariant
            i <= attachments.spec_len(),
            forall|a: AttachmentId| #[trigger] old(ids)@.contains(a) ==> ids@.contains(a),
            forall|j: int| 0 <= j < i ==> ids@.contains(#[trigger] attachments.value(j)),
        decreases attachments.spec_len() - i,
    {
        let (_, id) = attachments.at(i);
        proof {
            lemma_push_contains(ids@, *id);
        }
        ids.push(*id);
        i = i + 1;
    }
    proof {
        let all = attachments.deep_view();
        assert forall|a: AttachmentId| #[trigger] all.contains_value(a) implies ids@.contains(a) by {
            let name = choose|name: Seq<char>| all.contains_key(name) && all[name] == a;
            assert(attachments.has(name));
            let j = attachments.position(name);
            assert(ids@.contains(attachments.value(j)));
        }
    }
}

/// Adds the attachments of an entry and of its archived versions to a list.
fn list_uses(entry: &Entry, ids: &mut Vec<AttachmentId>)
    ensures
        forall|a: AttachmentId| #[trigger] old(ids)@.contains(a) ==> final(ids)@.contains(a),
        forall|a: AttachmentId| #[trigger] entry_uses(entry.deep_view(), a) ==> final(ids)@.contains(a),
{
    proof {
        entry.lemma_history();
    }
    list_attachments(&entry.attachments, ids);
    match &entry.history {
        Some(history) => {
            let mut i: usize = 0;
            while i < history.entries.len()
                invariant
                    i <= history.entries@.len(),
                    forall|a: AttachmentId| #[trigger] old(ids)@.contains(a) ==> ids@.contains(a),
                    forall|a: AttachmentId| #[trigger]
                        entry.attachments.deep_view().contains_value(a) ==> ids@.contains(a),
                    forall|j: int, a: AttachmentId|
                        0 <= j < i && #[trigger] history.deep_view()[j].attachments.contains_value(a)
                            ==> ids@.contains(a),
                decreases history.entries@.len() - i,
            {
                assert(history.deep_view()[i as int] == history.entries@[i as int].deep_view());
                list_attachments(&history.entries[i].attachments, ids);
                i = i + 1;
            }
        },
        None => {},
    }
}

/// An identifier that no attachment of a database has, and to which no entry refers.
fn unclaimed_id(db: &Database) -> (id: AttachmentId)
    ensures
        !db@.attachments.contains_key(id),
        unused(db@.entries, id),
{
    let mut taken: Vec<AttachmentId> = db.attachment_ids();
    let ids: Vec<EntryId> = db.entry_ids();
    let mut i: usize = 0;
    while i < ids.len()
        invariant
            i <= ids@.len(),
            forall|e: EntryId| #[trigger] ids@.contains(e) <==> db@.entries.contains_key(e),
            forall|a: AttachmentId| #[trigger] db@.attachments.contains_key(a) ==> taken@.contains(a),
            forall|j: int, a: AttachmentId|
                0 <= j < i && #[trigger] entry_uses(db@.entries[ids@[j]], a) ==> taken@.contains(a),
        decreases ids@.len() - i,
    {
        assert(ids@.contains(ids@[i as int]));
        match db.entry(ids[i]) {
            Some(entry) => {
                list_uses(entry, &mut taken);
            },
            None => {},
        }
        i = i + 1;
    }
    let id: AttachmentId = first_unlisted(&taken);
    assert forall|e: EntryId| #[trigger] db@.entries.contains_key(e) implies !entry_uses(db@.entries[e], id) by {
        assert(ids@.contains(e));
        let j = choose|j: int| 0 <= j < ids@.len() && ids@[j] == e;
        assert(db@.entries[ids@[j]] == db@.entries[e]);
    }
    id
}

/// Brings an attachment of another database into a database, where it does not have its data yet.
fn share_attachment(dest: &mut Database, own: AttachmentId, data: &Value<Vec<u8>>) -> (id: AttachmentId)
    requires
        old(dest)@.wf(),
    ensures
        stands_for(final(dest)@.attachments, own, data.deep_view(), id),
        forall|a: AttachmentId| #[trigger]
            final(dest)@.attachments.contains_key(a) ==> a == id || old(dest)@.attachments.contains_key(a),
        final(dest)@ == (DatabaseModel { attachments: final(dest)@.attachments, ..old(dest)@ }),
        final(dest)@.wf(),
        new_are_free(old(dest)@.entries, old(dest)@.attachments, final(dest)@.attachments),
        forall|source: Pool, s: AttachmentId| #[trigger]
            source.contains_key(s) && source[s].data == data.deep_view() ==> pool_grown(
                old(dest)@.attachments,
                final(dest)@.attachments,
                source,
            ),
{
    let is_there: bool = match dest.attachment(own) {
        Some(known) => known.data.same(data),
        None => false,
    };
    proof {
        reveal(new_are_free);
    }
    if is_there {
        return own;
    }
    match find_data(dest, data) {
        Some(id) => id,
        None => {
            let id = unclaimed_id(dest);
            let attachment = Attachment { id, entries: Vec::new(), data: data.duplicate() };
            assert(attachment.deep_view().entries =~= Set::<Place>::empty());
            dest.put_attachment(attachment);
            assert(dest@.tree() == old(dest)@.tree());
            id
        },
    }
}

/// Replaces the identifiers of attachments in the source by identifiers of the same data in the
/// destination. Data that the destination does not have yet are copied there.
pub fn remap_attachment_map(
    dest: &mut Database,
    source: &Database,
    attachments: &TextMap<AttachmentId>,
) -> (result: Result<TextMap<AttachmentId>, MergeError>)
    requires
        old(dest)@.wf(),
    ensures
        final(dest)@.wf(),
        final(dest)@ == (DatabaseModel { attachments: final(dest)@.attachments, ..old(dest)@ }),
        pool_grown(old(dest)@.attachments, final(dest)@.attachments, source@.attachments),
        new_are_free(old(dest)@.entries, old(dest)@.attachments, final(dest)@.attachments),
        match result {
            Ok(m) => {
                &&& remapped(
                    attachments.deep_view(),
                    m.deep_view(),
                    source@.attachments,
                    final(dest)@.attachments,
                )
                &&& forall|a: AttachmentId| #[trigger]
                    final(dest)@.attachments.contains_key(a) && !old(dest)@.attachments.contains_key(a)
                        ==> m.deep_view().contains_value(a)
            },
            Err(error) => exists|a: AttachmentId|
                attachments.deep_view().contains_value(a) && !#[trigger] source@.attachments.contains_key(a) && error
                    == MergeError::AttachmentNotFound(a),
        },
{
    let mut values: Vec<AttachmentId> = Vec::new();
    let mut i: usize = 0;
    proof {
        lemma_free_same(dest@.entries, dest@.attachments);
    }
    while i < attachments.len()
        invariant
            i <= attachments.spec_len(),
            values@.len() == i,
            forall|a: AttachmentId| #[trigger]
                dest@.attachments.contains_key(a) && !old(dest)@.attachments.contains_key(a) ==> values@.contains(a),
            dest@.wf(),
            dest@ == (DatabaseModel { attachments: dest@.attachments, ..old(dest)@ }),
            pool_grown(old(dest)@.attachments, dest@.attachments, source@.attachments),
            new_are_free(old(dest)@.entries, old(dest)@.attachments, dest@.attachments),
            forall|j: int|
                0 <= j < i ==> source@.attachments.contains_key(#[trigger] attachments.value(j)) && stands_for(
                    dest@.attachments,
                    attachments.value(j),
                    source@.attachments[attachments.value(j)].data,
                    values@[j],
                ),
        decreases attachments.spec_len() - i,
    {
        let (name, id) = attachments.at(i);
        let ghost mid = dest@.attachments;
        match source.attachment(*id) {
            Some(known) => {
                let shared = share_attachment(dest, *id, &known.data);
                proof {
                    lemma_push_contains(values@, shared);
                }
                values.push(shared);
                proof {
                    assert(source@.attachments.contains_key(*id));
                    lemma_pool_grown_twice(old(dest)@.attachments, mid, dest@.attachments, source@.attachments);
                    lemma_free_twice(old(dest)@.entries, old(dest)@.attachments, mid, dest@.attachments);
                    lemma_stands_grown(mid, dest@.attachments, source@.attachments);
                    assert forall|j: int| 0 <= j < i + 1 implies source@.attachments.contains_key(
                        #[trigger] attachments.value(j),
                    ) && stands_for(
                        dest@.attachments,
                        attachments.value(j),
                        source@.attachments[attachments.value(j)].data,
                        values@[j],
                    ) by {
                        if j < i {
                            assert(stands_for(
                                mid,
                                attachments.value(j),
                                source@.attachments[attachments.value(j)].data,
                                values@[j],
                            ));
                        }
                    }
                }
            },
            None => {
                proof {
                    assert(attachments.deep_view().contains_key(name@));
                    assert(attachments.deep_view().contains_value(*id));
                }
                return Err(MergeError::AttachmentNotFound(*id));
            },
        }
        i = i + 1;
    }
    let ghost ids = values@;
    let m = attachments.with_values(values);
    proof {
        let from = attachments.deep_view();
        let to = m.deep_view();
        assert(to.dom() =~= from.dom());
        assert forall|name: Seq<char>| #[trigger] from.contains_key(name) implies source@.attachments.contains_key(
            from[name],
        ) && stands_for(dest@.attachments, from[name], source@.attachments[from[name]].data, to[name]) by {
            assert(attachments.has(name));
            let j = attachments.position(name);
            assert(attachments.key(j) == name);
            assert(m.deep_view().contains_key(attachments.key(j)));
            assert(to[name] == ids[j]);
            assert(from[name] == attachments.value(j));
        }
        assert forall|a: AttachmentId| #[trigger]
            dest@.attachments.contains_key(a) && !old(dest)@.attachments.contains_key(a) implies to.contains_value(
            a,
        ) by {
            assert(ids.contains(a));
            let j = choose|j: int| 0 <= j < ids.len() && ids[j] == a;
            assert(to.contains_key(attachments.key(j)));
            assert(to[attachments.key(j)] == a);
        }
    }
    Ok(m)
}

/// Replaces the identifiers of the attachments of an entry and of its archived versions.
pub fn remap_entry_attachments(dest: &mut Database, source: &Database, entry: &mut Entry) -> (result: Result<
    (),
    MergeError,
>)
    requires
        old(dest)@.wf(),
    ensures
        final(dest)@.wf(),
        final(dest)@ == (DatabaseModel { attachments: final(dest)@.attachments, ..old(dest)@ }),
        pool_grown(old(dest)@.attachments, final(dest)@.attachments, source@.attachments),
        new_are_free(old(dest)@.entries, old(dest)@.attachments, final(dest)@.attachments),
        match result {
            Ok(_) => {
                &&& imported(
                    old(entry).deep_view(),
                    final(entry).deep_view(),
                    source@.attachments,
                    final(dest)@.attachments,
                )
                &&& new_are_used(
                    old(dest)@.attachments,
                    final(dest)@.attachments,
                    final(entry).deep_view(),
                )
            },
            Err(error) => exists|a: AttachmentId|
                entry_uses(old(entry).deep_view(), a) && !#[trigger] source@.attachments.contains_key(a) && error
                    == MergeError::AttachmentNotFound(a),
        },
{
    let ghost from = entry.deep_view();
    proof {
        entry.lemma_history();
    }
    match remap_attachment_map(dest, source, &entry.attachments) {
        Ok(attachments) => {
            entry.attachments = attachments;
        },
        Err(error) => {
            return Err(error);
        },
    }
    let ghost pool = dest@.attachments;
    assert(remapped(from.attachments, entry.attachments.deep_view(), source@.attachments, pool));
    let history: Option<History> = match &entry.history {
        Some(history) => {
            let mut entries: Vec<Entry> = Vec::new();
            let mut i: usize = 0;
            while i < history.entries.len()
                invariant
                    i <= history.entries@.len(),
                    entries@.len() == i,
                    dest@.wf(),
                    dest@ == (DatabaseModel { attachments: dest@.attachments, ..old(dest)@ }),
                    pool_grown(old(dest)@.attachments, pool, source@.attachments),
                    pool_grown(pool, dest@.attachments, source@.attachments),
                    new_are_free(old(dest)@.entries, old(dest)@.attachments, dest@.attachments),
                    from == old(entry).deep_view(),
                    from.history == Some(history.deep_view()),
                    forall|a: AttachmentId| #[trigger]
                        dest@.attachments.contains_key(a) && !pool.contains_key(a) ==> exists|j: int|
                            0 <= j < i && (#[trigger] entries@[j]).deep_view().attachments.contains_value(a),
                    forall|j: int|
                        0 <= j < i ==> imported_version(
                            from.history->0[j],
                            (#[trigger] entries@[j]).deep_view(),
                            source@.attachments,
                            dest@.attachments,
                        ),
                decreases history.entries@.len() - i,
            {
                let ghost mid = dest@.attachments;
                let ghost before = entries@;
                let mut version: Entry = history.entries[i].clone();
                let ghost old_version = version;
                assert(history.deep_view()[i as int] == version.deep_view());
                match remap_attachment_map(dest, source, &version.attachments) {
                    Ok(attachments) => {
                        version.attachments = attachments;
                        proof {
                            old_version.lemma_history();
                            version.lemma_history();
                            assert(version.deep_view() == (EntryModel {
                                attachments: version.deep_view().attachments,
                                ..old_version.deep_view()
                            }));
                        }
                        entries.push(version);
                    },
                    Err(error) => {
                        proof {
                            lemma_pool_grown_twice(pool, mid, dest@.attachments, source@.attachments);
                            lemma_free_twice(old(dest)@.entries, old(dest)@.attachments, mid, dest@.attachments);
                            lemma_pool_grown_twice(
                                old(dest)@.attachments,
                                pool,
                                dest@.attachments,
                                source@.attachments,
                            );
                            let a = choose|a: AttachmentId|
                                version.attachments.deep_view().contains_value(a)
                                    && !#[trigger] source@.attachments.contains_key(a) && error
                                    == MergeError::AttachmentNotFound(a);
                            assert(from.history->0[i as int].attachments.contains_value(a));
                            assert(entry_uses(from, a));
                        }
                        return Err(error);
                    },
                }
                proof {
                    lemma_pool_grown_twice(pool, mid, dest@.attachments, source@.attachments);
                    lemma_free_twice(old(dest)@.entries, old(dest)@.attachments, mid, dest@.attachments);
                    lemma_stands_grown(mid, dest@.attachments, source@.attachments);
                    assert forall|j: int| 0 <= j < i + 1 implies imported_version(
                        from.history->0[j],
                        (#[trigger] entries@[j]).deep_view(),
                        source@.attachments,
                        dest@.attachments,
                    ) by {
                        if j < i {
                            assert(entries@[j] == before[j]);
                        }
                    }
                    assert forall|a: AttachmentId| #[trigger]
                        dest@.attachments.contains_key(a) && !pool.contains_key(a) implies exists|j: int|
                        0 <= j < i + 1 && (#[trigger] entries@[j]).deep_view().attachments.contains_value(a) by {
                        if mid.contains_key(a) {
                            let j = choose|j: int|
                                0 <= j < i && (#[trigger] before[j]).deep_view().attachments.contains_value(a);
                            assert(entries@[j].deep_view().attachments.contains_value(a));
                        } else {
                            assert(entries@[i as int].deep_view().attachments.contains_value(a));
                        }
                    }
                }
                i = i + 1;
            }
            Some(History { entries })
        },
        None => None,
    };
    proof {
        if from.history is None {
            lemma_pool_same(pool, source@.attachments);
        }
    }
    assert(pool_grown(pool, dest@.attachments, source@.attachments));
    entry.history = history;
    proof {
        entry.lemma_history();
        lemma_pool_grown_twice(old(dest)@.attachments, pool, dest@.attachments, source@.attachments);
        lemma_stands_grown(pool, dest@.attachments, source@.attachments);
        let to = entry.deep_view();
        assert(imported_version(
            from.with_history(None),
            to.with_history(None),
            source@.attachments,
            dest@.attachments,
        ));
        if from.history is Some {
            assert forall|i: int| 0 <= i < from.history->0.len() implies #[trigger] imported_version(
                from.history->0[i],
                to.history->0[i],
                source@.attachments,
                dest@.attachments,
            ) by {
                assert(to.history->0[i] == history->0.entries@[i].deep_view());
            }
        }
        assert forall|a: AttachmentId| #[trigger]
            dest@.attachments.contains_key(a) && !old(dest)@.attachments.contains_key(a) implies entry_uses(to, a) by {
            if pool.contains_key(a) {
                assert(to.attachments.contains_value(a));
            } else {
                assert(from.history is Some);
                let j = choose|j: int|
                    0 <= j < history->0.entries@.len() && (#[trigger] history->0.entries@[j]).deep_view().attachments.contains_value(
                        a,
                    );
                assert(to.history->0[j] == history->0.entries@[j].deep_view());
            }
        }
    }
    Ok(())
}

/// Copies an entry of another database, with the identifiers of its attachments, also those of
/// its archived versions, translated to the destination's. Equal attachments are shared, new ones
/// are copied once.
pub fn import_entry(dest: &mut Database, source: &Database, entry: &Entry) -> (result: Result<Entry, MergeError>)
    requires
        old(dest)@.wf(),
    ensures
        final(dest)@.wf(),
        final(dest)@ == (DatabaseModel { attachments: final(dest)@.attachments, ..old(dest)@ }),
        pool_grown(old(dest)@.attachments, final(dest)@.attachments, source@.attachments),
        new_are_free(old(dest)@.entries, old(dest)@.attachments, final(dest)@.attachments),
        match result {
            Ok(copy) => {
                &&& imported(
                    entry.deep_view(),
                    copy.deep_view(),
                    source@.attachments,
                    final(dest)@.attachments,
                )
                &&& new_are_used(old(dest)@.attachments, final(dest)@.attachments, copy.deep_view())
            },
            Err(error) => exists|a: AttachmentId|
                entry_uses(entry.deep_view(), a) && !#[trigger] source@.attachments.contains_key(a) && error
                    == MergeError::AttachmentNotFound(a),
        },
{
    let mut copy: Entry = entry.clone();
    match remap_entry_attachments(dest, source, &mut copy) {
        Ok(_) => Ok(copy),
        Err(error) => Err(error),
    }
}

/// The attachments to which some version of an entry refers, with all places that do.
pub open spec fn indexed_attachments(db: DatabaseModel) -> Pool {
    Map::new(
        |a: AttachmentId|
            db.attachments.contains_key(a) && exists|place: Place|
                refers_at(db.entries, place, Reference::Attachment(a)),
        |a: AttachmentId|
            AttachmentModel { entries: places(db.entries, Reference::Attachment(a)), ..db.attachments[a] },
    )
}

/// Records for every attachment which places refer to it, and drops the attachments to which
/// nothing refers.
pub fn rebuild_attachment_references(db: &mut Database)
    requires
        old(db)@.wf(),
    ensures
        final(db)@ == (DatabaseModel { attachments: indexed_attachments(old(db)@), ..old(db)@ }),
        final(db)@.wf(),
{
    let ids: Vec<AttachmentId> = db.attachment_ids();
    let ghost before = db@;
    let ghost target = indexed_attachments(before);
    let mut i: usize = 0;
    while i < ids.len()
        invariant
            i <= ids@.len(),
            ids@.no_duplicates(),
            before == old(db)@,
            before.wf(),
            target == indexed_attachments(before),
            forall|a: AttachmentId| #[trigger] ids@.contains(a) <==> before.attachments.contains_key(a),
            db@ == (DatabaseModel { attachments: db@.attachments, ..before }),
            forall|a: AttachmentId| #[trigger]
                db@.attachments.contains_key(a) <==> if ids@.take(i as int).contains(a) {
                    target.contains_key(a)
                } else {
                    before.attachments.contains_key(a)
                },
            forall|a: AttachmentId| #[trigger]
                db@.attachments.contains_key(a) ==> db@.attachments[a] == if ids@.take(i as int).contains(a) {
                    target[a]
                } else {
                    before.attachments[a]
                },
        decreases ids@.len() - i,
    {
        let id = ids[i];
        let ghost mid = db@;
        proof {
            lemma_next_unseen(ids@, i as int);
        }
        let found = find_places(db, Reference::Attachment(id));
        let taken = db.take_attachment(id);
        match taken {
            Some(attachment) => {
                if found.len() > 0 {
                    let mut attachment: Attachment = attachment;
                    attachment.entries = found;
                    db.put_attachment(attachment);
                }
            },
            None => {},
        }
        proof {
            assert(before.attachments[id].id == id);
            assert(target.contains_key(id) <==> found@.len() > 0);
            assert(db@.attachments =~= if found@.len() > 0 {
                mid.attachments.insert(id, target[id])
            } else {
                mid.attachments.remove(id)
            });
        }
        i = i + 1;
    }
    proof {
        assert(ids@.take(ids@.len() as int) =~= ids@);
        assert(db@.attachments =~= target);
        assert(db@.tree() == before.tree());
    }
}

} // verus!

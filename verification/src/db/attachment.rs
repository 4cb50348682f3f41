//! Files attached to entries.
use vstd::prelude::*;

use crate::db::database::{Database, DatabaseModel};
use crate::db::value::Value;
use crate::ids::{AttachmentId, EntryId};

verus! {

/// An attached file, with the places that refer to it.
///
/// A place is an entry with the position of an archived version, or with no position for the
/// current version.
#[derive(Debug)]
pub struct Attachment {
    pub id: AttachmentId,
    pub entries: Vec<(EntryId, Option<usize>)>,
    pub data: Value<Vec<u8>>,
}

/// The content of an attachment.
pub struct AttachmentModel {
    pub id: AttachmentId,
    pub entries: Set<(EntryId, Option<usize>)>,
    pub data: Value<Seq<u8>>,
}

impl DeepView for Attachment {
    type V = AttachmentModel;

    open spec fn deep_view(&self) -> AttachmentModel {
        AttachmentModel { id: self.id, entries: self.entries@.to_set(), data: self.data.deep_view() }
    }
}

/// A number is the identifier of an attachment.
spec fn is_taken(ids: Seq<AttachmentId>, number: usize) -> bool {
    ids.contains(AttachmentId { number })
}

/// Where all of the first numbers are taken, there are at least that many of them.
proof fn lemma_numbers_taken(ids: Seq<AttachmentId>, n: nat)
    requires
        forall|k: usize| k < n ==> #[trigger] is_taken(ids, k),
        n <= usize::MAX + 1,
    ensures
        n <= ids.len(),
    decreases n,
{
    if n > 0 {
        let last = AttachmentId { number: (n - 1) as usize };
        assert(is_taken(ids, (n - 1) as usize));
        let at = choose|at: int| 0 <= at < ids.len() && ids[at] == last;
        let rest = ids.remove(at);
        assert forall|k: usize| k < n - 1 implies #[trigger] is_taken(rest, k) by {
            let id = AttachmentId { number: k };
            assert(is_taken(ids, k));
            let j = choose|j: int| 0 <= j < ids.len() && ids[j] == id;
            if j < at {
                assert(rest[j] == id);
            } else {
                assert(rest[j - 1] == id);
            }
        }
        lemma_numbers_taken(rest, (n - 1) as nat);
    }
}

/// Whether an identifier is in a list.
fn is_listed(ids: &Vec<AttachmentId>, id: AttachmentId) -> (found: bool)
    ensures
        found == ids@.contains(id),
{
    let mut i: usize = 0;
    while i < ids.len()
        invariant
            i <= ids@.len(),
            forall|j: int| 0 <= j < i ==> #[trigger] ids@[j] != id,
        decreases ids@.len() - i,
    {
        if ids[i] == id {
            assert(ids@[i as int] == id);
            return true;
        }
        i = i + 1;
    }
    false
}

/// The first identifier that is not in a list.
pub(crate) fn first_unlisted(ids: &Vec<AttachmentId>) -> (id: AttachmentId)
    ensures
        !ids@.contains(id),
{
    let count: usize = ids.len();
    let mut n: usize = 0;
    while is_listed(ids, AttachmentId::new(n))
        invariant
            n <= count == ids@.len(),
            forall|k: usize| k < n ==> #[trigger] is_taken(ids@, k),
        decreases count - n,
    {
        proof {
            let at = AttachmentId { number: n };
            assert(ids@.contains(at));
            assert forall|k: usize| k < n + 1 implies #[trigger] is_taken(ids@, k) by {
                if k == n {
                    assert(AttachmentId { number: k } == at);
                }
            }
            lemma_numbers_taken(ids@, (n + 1) as nat);
        }
        n = n + 1;
    }
    AttachmentId { number: n }
}

impl AttachmentId {
    /// An identifier that no attachment of the database has.
    pub fn next_free(db: &Database) -> (id: Self)
        ensures
            !db@.attachments.contains_key(id),
    {
        first_unlisted(&db.attachment_ids())
    }
}

impl Database {
    /// Stores an attachment to which nothing refers yet.
    pub fn add_attachment(&mut self, data: Value<Vec<u8>>) -> (id: AttachmentId)
        ensures
            !old(self)@.attachments.contains_key(id),
            final(self)@ == (DatabaseModel {
                attachments: old(self)@.attachments.insert(
                    id,
                    AttachmentModel { id, entries: Set::empty(), data: data.deep_view() },
                ),
                ..old(self)@
            }),
            old(self)@.wf() ==> final(self)@.wf(),
    {
        let id = AttachmentId::next_free(self);
        let attachment = Attachment { id, entries: Vec::new(), data };
        assert(attachment.deep_view().entries =~= Set::<(EntryId, Option<usize>)>::empty());
        self.put_attachment(attachment);
        assert(self@.tree() == old(self)@.tree());
        id
    }
}

} // verus!

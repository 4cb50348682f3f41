//! Which versions of which entries refer to an attachment or a custom icon.
use vstd::prelude::*;

use crate::db::database::{lemma_push_contains, Database};
use crate::db::entry::{Entry, EntryModel};
use crate::db::icon::Icon;
use crate::ids::{AttachmentId, CustomIconId, EntryId};
use crate::text_map::TextMap;

verus! {

/// Something outside an entry that a version of the entry can refer to.
#[derive(Clone, Copy, Debug, PartialEq, Eq, Structural)]
pub enum Reference {
    Attachment(AttachmentId),
    Icon(CustomIconId),
}

/// A place in a table of entries: an entry with the position of an archived version, or with no
/// position for the current version.
pub type Place = (EntryId, Option<usize>);

/// A version of an entry refers to something.
pub open spec fn refers(version: EntryModel, to: Reference) -> bool {
    match to {
        Reference::Attachment(a) => exists|name: Seq<char>| #[trigger]
            version.attachments.contains_key(name) && version.attachments[name] == a,
        Reference::Icon(i) => version.icon == Some(Icon::Custom(i)),
    }
}

/// The version of an entry at a position, if it has one there.
pub open spec fn version_at(entry: EntryModel, position: Option<usize>) -> Option<EntryModel> {
    match position {
        None => Some(entry),
        Some(i) => if entry.history is Some && i < entry.history->0.len() {
            Some(entry.history->0[i as int])
        } else {
            None
        },
    }
}

/// A place in a table of entries refers to something.
pub open spec fn refers_at(entries: Map<EntryId, EntryModel>, place: Place, to: Reference) -> bool {
    &&& entries.contains_key(place.0)
    &&& version_at(entries[place.0], place.1) is Some
    &&& refers(version_at(entries[place.0], place.1)->0, to)
}

/// All places in a table of entries that refer to something.
pub open spec fn places(entries: Map<EntryId, EntryModel>, to: Reference) -> Set<Place> {
    Set::new(|place: Place| refers_at(entries, place, to))
}

/// Whether a version of an entry has a certain attachment.
fn has_attachment(attachments: &TextMap<AttachmentId>, id: AttachmentId) -> (found: bool)
    ensures
        found == (exists|name: Seq<char>| #[trigger]
            attachments.deep_view().contains_key(name) && attachments.deep_view()[name] == id),
{
    let mut i: usize = 0;
    while i < attachments.len()
        invariant
            i <= attachments.spec_len(),
            forall|j: int| 0 <= j < i ==> #[trigger] attachments.value(j) != id,
        decreases attachments.spec_len() - i,
    {
        let (_, at) = attachments.at(i);
        if *at == id {
            return true;
        }
        i = i + 1;
    }
    proof {
        assert forall|name: Seq<char>| #[trigger] attachments.deep_view().contains_key(name) implies attachments.deep_view()[name]
            != id by {
            assert(attachments.has(name));
            let j = attachments.position(name);
            assert(attachments.value(j) != id);
        }
    }
    false
}

/// Whether a version of an entry refers to something.
fn is_reference(version: &Entry, to: Reference) -> (found: bool)
    ensures
        found == refers(version.deep_view(), to),
{
    assert(version.deep_view().attachments == version.attachments.deep_view());
    match to {
        Reference::Attachment(a) => has_attachment(&version.attachments, a),
        Reference::Icon(i) => match version.icon {
            Some(Icon::Custom(c)) => c == i,
            _ => false,
        },
    }
}

/// All places in a database that refer to something.
pub fn find_places(db: &Database, to: Reference) -> (found: Vec<(EntryId, Option<usize>)>)
    ensures
        found@.to_set() == places(db@.entries, to),
        found@.len() == 0 <==> (forall|place: Place| !refers_at(db@.entries, place, to)),
{
    let ids: Vec<EntryId> = db.entry_ids();
    let ghost entries = db@.entries;
    let mut found: Vec<(EntryId, Option<usize>)> = Vec::new();
    let mut i: usize = 0;
    while i < ids.len()
        invariant
            i <= ids@.len(),
            entries == db@.entries,
            forall|e: EntryId| #[trigger] ids@.contains(e) <==> entries.contains_key(e),
            forall|place: Place| #[trigger]
                found@.contains(place) <==> refers_at(entries, place, to) && ids@.take(i as int).contains(place.0),
        decreases ids@.len() - i,
    {
        let id = ids[i];
        assert(ids@.contains(ids@[i as int]));
        let ghost before = found@;
        proof {
            assert(ids@.take(i + 1) =~= ids@.take(i as int).push(id));
            lemma_push_contains(ids@.take(i as int), id);
        }
        match db.entry(id) {
            Some(entry) => {
                proof {
                    entry.lemma_history();
                }
                if is_reference(entry, to) {
                    proof {
                        lemma_push_contains(found@, (id, None::<usize>));
                    }
                    found.push((id, None));
                }
                match &entry.history {
                    Some(history) => {
                        let mut j: usize = 0;
                        while j < history.entries.len()
                            invariant
                                j <= history.entries@.len(),
                                entries.contains_key(id),
                                entries[id].history == Some(history.deep_view()),
                                forall|place: Place| #[trigger]
                                    found@.contains(place) <==> before.contains(place) || (place.0 == id && refers_at(
                                        entries,
                                        place,
                                        to,
                                    ) && (place.1 is None || place.1->0 < j)),
                            decreases history.entries@.len() - j,
                        {
                            assert(history.deep_view()[j as int] == history.entries@[j as int].deep_view());
                            if is_reference(&history.entries[j], to) {
                                proof {
                                    lemma_push_contains(found@, (id, Some(j)));
                                }
                                found.push((id, Some(j)));
                            }
                            j = j + 1;
                        }
                    },
                    None => {},
                }
            },
            None => {},
        }
        assert forall|place: Place| #[trigger] found@.contains(place) <==> refers_at(entries, place, to) && ids@.take(
            i + 1,
        ).contains(place.0) by {
            assert(before.contains(place) <==> refers_at(entries, place, to) && ids@.take(i as int).contains(place.0));
        }
        i = i + 1;
    }
    assert(ids@.take(ids@.len() as int) =~= ids@);
    assert forall|place: Place| #[trigger] found@.to_set().contains(place) <==> places(db@.entries, to).contains(
        place,
    ) by {
        assert(found@.to_set().contains(place) <==> found@.contains(place));
    }
    assert(found@.to_set() =~= places(db@.entries, to));
    proof {
        if found@.len() > 0 {
            assert(found@.contains(found@[0]));
            assert(refers_at(db@.entries, found@[0], to));
        } else {
            assert forall|place: Place| !refers_at(db@.entries, place, to) by {
                assert(!found@.contains(place));
            }
        }
    }
    found
}

} // verus!

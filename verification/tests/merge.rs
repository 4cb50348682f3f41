//! Merging two versions of a database.
use keepass::datetime::NaiveDateTime;
use keepass::datum::Datum;
use keepass::db::database::Database;
use keepass::db::entry::{Entry, History};
use keepass::db::group::Group;
use keepass::db::icon::Icon;
use keepass::db::value::Value;
use keepass::ids::{AttachmentId, CustomIconId, EntryId, GroupId};
use keepass::merge::log::{MergeError, MergeEvent, MergeEventTarget, MergeEventType};

const ROOT_GROUP_ID: GroupId = GroupId { uuid: 1 };
const GROUP1_ID: GroupId = GroupId { uuid: 2 };
const GROUP2_ID: GroupId = GroupId { uuid: 3 };
const SUBGROUP1_ID: GroupId = GroupId { uuid: 4 };
const SUBGROUP2_ID: GroupId = GroupId { uuid: 5 };
const ENTRY1_ID: EntryId = EntryId { uuid: 6 };
const ENTRY2_ID: EntryId = EntryId { uuid: 7 };

const NEW_GROUP_ID: GroupId = GroupId { uuid: 20 };
const NEW_SUBGROUP_ID: GroupId = GroupId { uuid: 21 };
const NEW_ENTRY_ID: EntryId = EntryId { uuid: 30 };

const ICON_ID: CustomIconId = CustomIconId { uuid: 40 };
const OTHER_ICON_ID: CustomIconId = CustomIconId { uuid: 41 };

/// A moment some seconds after the databases of the tests were created.
fn at(seconds: i64) -> NaiveDateTime {
    NaiveDateTime::from_timestamp(1_700_000_000 + seconds, 0).unwrap()
}

fn edit_group(db: &mut Database, id: GroupId, edit: impl FnOnce(&mut Group)) {
    let mut group = db.group(id).unwrap().clone();
    edit(&mut group);
    assert!(db.update_group(group));
}

fn edit_entry(db: &mut Database, id: EntryId, edit: impl FnOnce(&mut Entry)) {
    let mut entry = db.entry(id).unwrap().clone();
    edit(&mut entry);
    assert!(db.update_entry(entry));
}

/// Edits a group and notes when.
fn track_group(db: &mut Database, id: GroupId, moment: NaiveDateTime, edit: impl FnOnce(&mut Group)) {
    edit_group(db, id, |g| {
        edit(g);
        g.times.last_modification = Some(moment);
    });
}

/// Edits an entry, archives what it was, and notes when.
fn track_entry(db: &mut Database, id: EntryId, moment: NaiveDateTime, edit: impl FnOnce(&mut Entry)) {
    edit_entry(db, id, |e| {
        let mut history = e.history.take().unwrap_or(History { entries: Vec::new() });
        history.add_entry(e.clone());
        edit(e);
        e.history = Some(history);
        e.times.last_modification = Some(moment);
    });
}

fn move_entry(db: &mut Database, id: EntryId, parent: GroupId, moment: NaiveDateTime) {
    edit_entry(db, id, |e| {
        e.parent = parent;
        e.times.location_changed = Some(moment);
    });
}

fn move_group(db: &mut Database, id: GroupId, parent: GroupId, moment: NaiveDateTime) {
    db.move_group(id, parent).expect("move successful");
    edit_group(db, id, |g| g.times.location_changed = Some(moment));
}

fn remove_entry(db: &mut Database, id: EntryId, moment: NaiveDateTime) {
    db.remove_entry(id);
    db.record_deletion(id.uuid(), Some(moment));
}

/// Removes a group and records the deletion of everything in it.
fn remove_group(db: &mut Database, id: GroupId, moment: NaiveDateTime) {
    for e in db.entry_ids() {
        let parent = db.entry(e).unwrap().parent;
        if db.is_within(parent, id) {
            db.record_deletion(e.uuid(), Some(moment));
        }
    }
    for g in db.group_ids() {
        if db.is_within(g, id) {
            db.record_deletion(g.uuid(), Some(moment));
        }
    }
    assert!(db.remove_group(id));
}

fn add_group(db: &mut Database, parent: GroupId, id: GroupId, name: &str, moment: NaiveDateTime) {
    db.add_group_with_id(parent, id);
    edit_group(db, id, |g| {
        g.name = name.to_string();
        g.times.last_modification = Some(moment);
        g.times.location_changed = Some(moment);
    });
}

fn add_entry(db: &mut Database, parent: GroupId, id: EntryId, title: &str, moment: NaiveDateTime) {
    db.add_entry_with_id(parent, id);
    edit_entry(db, id, |e| {
        e.set_unprotected("Title", title);
        e.times.last_modification = Some(moment);
        e.times.location_changed = Some(moment);
    });
}

fn set_icon(db: &mut Database, entry: EntryId, icon: CustomIconId, image: Vec<u8>) {
    db.add_custom_icon(icon, image);
    edit_entry(db, entry, |e| e.icon = Some(Icon::Custom(icon)));
}

fn add_attachment(db: &mut Database, entry: EntryId, name: &str, data: Value<Vec<u8>>) -> AttachmentId {
    let id = db.add_attachment(data);
    edit_entry(db, entry, |e| e.attachments.insert(name.to_string(), id));
    id
}

fn set_modified(db: &mut Database, entry: EntryId, moment: NaiveDateTime) {
    edit_entry(db, entry, |e| e.times.last_modification = Some(moment));
}

fn title(db: &Database, entry: EntryId) -> String {
    db.entry(entry).unwrap().get("Title").unwrap().to_string()
}

fn n_entries(db: &Database) -> usize {
    db.entry_ids().len()
}

fn n_groups(db: &Database) -> usize {
    db.group_ids().len()
}

fn entries_in(db: &Database, group: GroupId) -> usize {
    db.entry_ids().into_iter().filter(|e| db.entry(*e).unwrap().parent == group).count()
}

fn groups_in(db: &Database, group: GroupId) -> usize {
    db.group_ids().into_iter().filter(|g| db.group(*g).unwrap().parent == Some(group)).count()
}

/// The data of an attachment of the current version of an entry.
fn attached(db: &Database, entry: EntryId, name: &str) -> Option<Value<Vec<u8>>> {
    let id = *db.entry(entry).unwrap().attachments.get(name)?;
    Some(db.attachment(id).unwrap().data.duplicate())
}

/// Build up an example database for testing
///
/// The database structure is as follows:
///
/// root (ROOT_GROUP_ID)
/// ├── entry1 (ENTRY1_ID)
/// ├── group1 (GROUP1_ID)
/// │   └── subgroup1 (SUBGROUP1_ID)
/// │       └── entry2 (ENTRY2_ID)
/// └── group2 (GROUP2_ID)
///    └── subgroup2 (SUBGROUP2_ID)
///
fn create_test_database() -> Database {
    let mut db = Database::new_with_root_id(ROOT_GROUP_ID);
    edit_group(&mut db, ROOT_GROUP_ID, |g| {
        g.times.last_modification = Some(at(0));
        g.times.location_changed = Some(at(0));
    });

    // build up root -> group1 -> subgroup1 -> entry2
    add_group(&mut db, ROOT_GROUP_ID, GROUP1_ID, "group1", at(0));
    add_group(&mut db, GROUP1_ID, SUBGROUP1_ID, "subgroup1", at(0));
    add_entry(&mut db, SUBGROUP1_ID, ENTRY2_ID, "entry2", at(0));

    // build up root -> group2 -> subgroup2
    add_group(&mut db, ROOT_GROUP_ID, GROUP2_ID, "group2", at(0));
    add_group(&mut db, GROUP2_ID, SUBGROUP2_ID, "subgroup2", at(0));

    // Placing the first entry in the root group
    add_entry(&mut db, ROOT_GROUP_ID, ENTRY1_ID, "entry1", at(0));

    db
}

fn assert_history_ordered(history: &History) {
    let mut last_modification_time: Option<NaiveDateTime> = None;
    for entry in &history.entries {
        if last_modification_time.is_none() {
            last_modification_time = entry.times.last_modification;
        }

        if let Some(entry_modification_time) = entry.times.last_modification {
            assert!(
                !entry_modification_time.after(&last_modification_time.unwrap()),
                "history entries are not ordered by last modification time: {:?} came after {:?}",
                last_modification_time,
                entry_modification_time
            );
            last_modification_time = Some(entry_modification_time);
        }
    }
}

fn entry_event(id: EntryId, event_type: MergeEventType) -> MergeEvent {
    MergeEvent { target: MergeEventTarget::Entry(id), event_type }
}

fn group_event(id: GroupId, event_type: MergeEventType) -> MergeEvent {
    MergeEvent { target: MergeEventTarget::Group(id), event_type }
}

/// A merge copies icon references from source onto destination objects.
/// The images live in a database-local table, so the destination has to
/// take a copy or it renders a default icon and loses the image on save.
#[test]
fn merging_an_entry_carries_its_custom_icon_image() {
    let mut dest = create_test_database();
    let mut source = dest.clone();

    let image = vec![0x89, b'P', b'N', b'G', 1, 2, 3];
    edit_entry(&mut source, ENTRY1_ID, |e| e.set_unprotected("Title", "renamed remotely"));
    set_icon(&mut source, ENTRY1_ID, ICON_ID, image.clone());
    set_modified(&mut source, ENTRY1_ID, at(60));

    dest.merge(&source).expect("merge");

    let entry = dest.entry(ENTRY1_ID).expect("entry survives the merge");
    assert_eq!(entry.icon, Some(Icon::Custom(ICON_ID)), "the source uuid is kept so both sides converge on one icon table");
    let icon = dest.custom_icon(ICON_ID).expect("icon reference resolves");
    assert_eq!(icon.data, image, "the image travelled with the reference");
    assert_eq!(icon.id, ICON_ID);
}

/// Two databases that already share an image must not accumulate a second
/// copy of it on every merge.
#[test]
fn merging_shares_an_image_the_destination_already_has() {
    let mut dest = create_test_database();
    let image = vec![1, 2, 3, 4];
    set_icon(&mut dest, ENTRY1_ID, ICON_ID, image.clone());

    // The same image on the other side, under its own uuid: what two
    // machines produce when both fetch the same favicon.
    let mut source = dest.clone();
    edit_entry(&mut source, ENTRY2_ID, |e| e.set_unprotected("Title", "renamed remotely"));
    set_icon(&mut source, ENTRY2_ID, OTHER_ICON_ID, image.clone());
    set_modified(&mut source, ENTRY2_ID, at(60));

    dest.merge(&source).expect("merge");

    assert_eq!(dest.custom_icon_ids().len(), 1, "the same image is stored once, not once per merge");
    assert_eq!(dest.entry(ENTRY2_ID).unwrap().icon, Some(Icon::Custom(ICON_ID)));
}

/// Clearing an icon remotely must not delete the image locally while the
/// version the merge archives still renders it.
#[test]
fn merging_keeps_an_image_the_archived_version_still_renders() {
    let mut dest = create_test_database();
    set_icon(&mut dest, ENTRY1_ID, ICON_ID, vec![9, 9, 9]);
    assert_eq!(dest.custom_icon_ids().len(), 1);

    let mut source = dest.clone();
    edit_entry(&mut source, ENTRY1_ID, |e| e.icon = None);
    set_modified(&mut source, ENTRY1_ID, at(60));

    dest.merge(&source).expect("merge");

    assert!(
        dest.entry(ENTRY1_ID).unwrap().icon.is_none(),
        "the current version follows the remote and has no icon"
    );
    assert_eq!(dest.custom_icon_ids().len(), 1, "the archived version still points at the image");
}

/// An image nothing points at any more is dead weight in every save and
/// in every future merge.
#[test]
fn pruning_drops_images_nothing_references() {
    let mut db = create_test_database();
    set_icon(&mut db, ENTRY1_ID, ICON_ID, vec![9, 9, 9]);
    edit_entry(&mut db, ENTRY1_ID, |e| e.icon = None);

    assert_eq!(db.custom_icon_ids().len(), 1, "clearing the icon leaves the image");
    db.prune_unused_custom_icons();
    assert_eq!(db.custom_icon_ids().len(), 0, "the prune collects it");
}

/// Re-fetching icons in bulk replaces them one after another. Without a
/// prune every previous image stays, so the vault grows without bound and
/// its icon table drifts away from every other copy.
#[test]
fn pruning_after_replacing_an_icon_keeps_only_the_current_image() {
    let mut db = create_test_database();
    set_icon(&mut db, ENTRY1_ID, ICON_ID, vec![1, 1, 1]);
    set_icon(&mut db, ENTRY1_ID, OTHER_ICON_ID, vec![2, 2, 2]);

    db.prune_unused_custom_icons();

    assert_eq!(db.custom_icon_ids().len(), 1, "only the current image is kept");
    assert_eq!(db.entry(ENTRY1_ID).unwrap().icon, Some(Icon::Custom(OTHER_ICON_ID)));
    assert_eq!(db.custom_icon(OTHER_ICON_ID).unwrap().data, vec![2, 2, 2]);
}

/// The prune reads the entry and group icon fields, not the reference
/// cache: an archived version never registers itself there, and deleting
/// its image would blank an archived icon.
#[test]
fn pruning_keeps_an_image_a_history_version_still_uses() {
    let mut db = create_test_database();
    set_icon(&mut db, ENTRY1_ID, ICON_ID, vec![1, 1, 1]);
    db.add_custom_icon(OTHER_ICON_ID, vec![2, 2, 2]);
    track_entry(&mut db, ENTRY1_ID, at(1), |e| e.icon = Some(Icon::Custom(OTHER_ICON_ID)));

    db.prune_unused_custom_icons();

    assert_eq!(db.custom_icon_ids().len(), 2, "the archived version still renders its own icon");
}

/// Test that merging a database with itself results in no changes.
#[test]
fn test_idempotence() {
    let mut destination_db = create_test_database();
    let source_db = destination_db.clone();

    let entry_count_before = n_entries(&destination_db);
    let group_count_before = n_groups(&destination_db);

    let merge_result = destination_db.merge(&source_db).unwrap();
    assert_eq!(merge_result.warnings.len(), 0);
    assert_eq!(merge_result.events.len(), 0);
    assert_eq!(entries_in(&destination_db, ROOT_GROUP_ID), 1);
    assert_eq!(groups_in(&destination_db, ROOT_GROUP_ID), 2);

    assert_eq!(n_entries(&destination_db), entry_count_before);
    assert_eq!(n_groups(&destination_db), group_count_before);

    // The two groups should be exactly the same after merging, since
    // nothing was performed during the merge.
    assert_eq!(destination_db, source_db);

    // Now modify an entry in the destination database, and merge again.
    track_entry(&mut destination_db, ENTRY1_ID, at(1), |e| e.set_unprotected("Title", "entry1_updated"));

    // Merging should ignore the change, since destination is more recent.
    let merge_result = destination_db.merge(&source_db).unwrap();
    assert_eq!(merge_result.warnings.len(), 0);
    assert_eq!(merge_result.events.len(), 0);
    let destination_db_just_after_merge = destination_db.clone();

    let merge_result = destination_db.merge(&source_db).unwrap();
    assert_eq!(merge_result.warnings.len(), 0);
    assert_eq!(merge_result.events.len(), 0);

    // Merging twice in a row, even if the first merge updated the destination group,
    // should not create more changes.
    assert_eq!(destination_db_just_after_merge, destination_db);
}

/// Pure UI view state (IsExpanded, LastTopVisibleEntry) is written by
/// clients without bumping modification times — with tied timestamps it
/// must not count as divergence and must not fail the merge.
#[test]
fn test_view_state_only_divergence_is_not_a_merge_error() {
    let mut destination_db = create_test_database();
    let mut source_db = destination_db.clone();

    let dest_expanded = destination_db.group(GROUP1_ID).unwrap().is_expanded;
    edit_group(&mut source_db, GROUP1_ID, |g| g.is_expanded = !dest_expanded);
    edit_group(&mut source_db, GROUP2_ID, |g| g.last_top_visible_entry = Some(ENTRY1_ID));

    let merge_result = destination_db.merge(&source_db).unwrap();
    assert_eq!(merge_result.warnings.len(), 0);
    assert_eq!(merge_result.events.len(), 0);
    // On a tie the destination keeps its own view state.
    assert_eq!(destination_db.group(GROUP1_ID).unwrap().is_expanded, dest_expanded);
    assert_eq!(destination_db.group(GROUP2_ID).unwrap().last_top_visible_entry, None);
}

/// Test that a new entry in source is added to destination when merging.
#[test]
fn test_add_new_entry() {
    let mut destination_db = create_test_database();
    let mut source_db = destination_db.clone();

    let entry_count_before = n_entries(&destination_db);
    let group_count_before = n_groups(&destination_db);

    // create a new entry in source_db
    add_entry(&mut source_db, ROOT_GROUP_ID, NEW_ENTRY_ID, "", at(1));
    track_entry(&mut source_db, NEW_ENTRY_ID, at(1), |e| e.set_unprotected("Title", "new_entry"));

    // merge source_db into destination_db -- this should add the new entry
    let merge_result = destination_db.merge(&source_db).unwrap();
    assert_eq!(merge_result.warnings.len(), 0);
    assert_eq!(merge_result.events.len(), 1);

    assert_eq!(n_entries(&destination_db), entry_count_before + 1);
    assert_eq!(n_groups(&destination_db), group_count_before);

    assert_eq!(entries_in(&destination_db, ROOT_GROUP_ID), 2);

    assert!(destination_db.entry(NEW_ENTRY_ID).is_some(), "New entry should exist");
    assert_eq!(title(&destination_db, NEW_ENTRY_ID), "new_entry");

    // Merging the same group again should not create a duplicate entry.
    let merge_result = destination_db.merge(&source_db).unwrap();
    assert_eq!(merge_result.warnings.len(), 0);
    assert_eq!(merge_result.events.len(), 0);

    assert_eq!(n_entries(&destination_db), entry_count_before + 1);
    assert_eq!(n_groups(&destination_db), group_count_before);
    assert_eq!(entries_in(&destination_db, ROOT_GROUP_ID), 2);
}

/// Test that an entry that is marked as deleted in the destination database is not re-added
/// when merging from source
#[test]
fn test_deleted_entry_in_destination() {
    let mut destination_db = create_test_database();
    let mut source_db = destination_db.clone();

    let entry_count_before = n_entries(&destination_db);
    let group_count_before = n_groups(&destination_db);

    // add a new entry in source_db that will be marked as deleted in destination_db
    add_entry(&mut source_db, ROOT_GROUP_ID, NEW_ENTRY_ID, "", at(1));
    track_entry(&mut source_db, NEW_ENTRY_ID, at(1), |e| e.set_unprotected("Title", "deleted_entry"));

    // mark the entry as deleted in destination_db
    destination_db.record_deletion(NEW_ENTRY_ID.uuid(), Some(at(1)));

    // merge source_db into destination_db -- the entry should not be added
    let merge_result = destination_db.merge(&source_db).unwrap();
    assert_eq!(merge_result.warnings.len(), 0);
    assert_eq!(merge_result.events.len(), 0);

    assert_eq!(n_entries(&destination_db), entry_count_before);
    assert_eq!(n_groups(&destination_db), group_count_before);

    assert!(destination_db.entry(NEW_ENTRY_ID).is_none());
}

/// Test that an entry that is updated and moved to a group in source but that group is deleted
/// later in dest should cause the group to be re-added and the entry to be moved there.
#[test]
fn test_updated_entry_under_deleted_group() {
    let mut destination_db = create_test_database();
    add_entry(&mut destination_db, ROOT_GROUP_ID, NEW_ENTRY_ID, "original_title", at(0));
    add_group(&mut destination_db, ROOT_GROUP_ID, NEW_GROUP_ID, "deleted_group", at(0));

    let mut source_db = destination_db.clone();

    // perform the update of the entry in source_db and move it to the group that will be
    // deleted
    track_entry(&mut source_db, NEW_ENTRY_ID, at(1), |e| e.set_unprotected("Title", "modified_title"));
    move_entry(&mut source_db, NEW_ENTRY_ID, NEW_GROUP_ID, at(1));

    // delete the group in destination_db
    assert!(destination_db.remove_group(NEW_GROUP_ID));

    let entry_count_before = n_entries(&destination_db);
    let group_count_before = n_groups(&destination_db);

    // perform the merge - the group should be re-added and the entry moved there
    let merge_result = destination_db.merge(&source_db).unwrap();
    assert_eq!(merge_result.warnings.len(), 0);
    assert_eq!(merge_result.events.len(), 3); // recreate group, move entry, update entry

    assert_eq!(n_entries(&destination_db), entry_count_before);
    assert_eq!(n_groups(&destination_db), group_count_before + 1);

    assert!(destination_db.group(NEW_GROUP_ID).is_some());
    assert!(destination_db.entry(NEW_ENTRY_ID).is_some());
    assert_eq!(destination_db.entry(NEW_ENTRY_ID).unwrap().parent, NEW_GROUP_ID);
}

/// Test that a group that is marked as deleted in the destination database is not re-added
/// when merging from source
#[test]
fn test_deleted_group_in_destination() {
    let mut destination_db = create_test_database();
    let mut source_db = destination_db.clone();

    let entry_count_before = n_entries(&destination_db);
    let group_count_before = n_groups(&destination_db);

    // add a new group in source_db
    add_group(&mut source_db, ROOT_GROUP_ID, NEW_GROUP_ID, "deleted_group", at(1));

    // mark the group as deleted in destination_db
    destination_db.record_deletion(NEW_GROUP_ID.uuid(), Some(at(1)));

    let merge_result = destination_db.merge(&source_db).unwrap();
    assert_eq!(merge_result.warnings.len(), 0);
    assert_eq!(merge_result.events.len(), 0);

    assert_eq!(n_entries(&destination_db), entry_count_before);
    assert_eq!(n_groups(&destination_db), group_count_before);

    assert!(destination_db.group(NEW_GROUP_ID).is_none());
}

/// Test that an entry that is marked as deleted in the source database is deleted from destination
#[test]
fn test_deleted_entry_in_source() {
    let mut destination_db = create_test_database();
    add_entry(&mut destination_db, ROOT_GROUP_ID, NEW_ENTRY_ID, "", at(0));
    track_entry(&mut destination_db, NEW_ENTRY_ID, at(0), |e| e.set_unprotected("Title", "deleted_entry"));

    let mut source_db = destination_db.clone();

    let entry_count_before = n_entries(&destination_db);
    let group_count_before = n_groups(&destination_db);

    // mark the entry as deleted in source_db
    remove_entry(&mut source_db, NEW_ENTRY_ID, at(0));

    // perform the merge - the entry should be deleted
    let merge_result = destination_db.merge(&source_db).unwrap();
    assert_eq!(merge_result.warnings.len(), 0);
    assert_eq!(merge_result.events.len(), 1);

    // verify that the entry was deleted
    assert_eq!(n_entries(&destination_db), entry_count_before - 1);
    assert_eq!(n_groups(&destination_db), group_count_before);

    assert!(destination_db.entry(NEW_ENTRY_ID).is_none());
    assert!(destination_db.deletion(NEW_ENTRY_ID.uuid()).is_some());
}

/// Test that a group that is marked as deleted in the source database is deleted from destination
#[test]
fn test_deleted_group_in_source() {
    let mut destination_db = create_test_database();
    add_group(&mut destination_db, ROOT_GROUP_ID, NEW_GROUP_ID, "deleted_group", at(0));

    let mut source_db = destination_db.clone();

    let entry_count_before = n_entries(&destination_db);
    let group_count_before = n_groups(&destination_db);

    // mark the group as deleted in source_db
    remove_group(&mut source_db, NEW_GROUP_ID, at(0));

    // perform the merge - the group should be deleted
    let merge_result = destination_db.merge(&source_db).unwrap();
    assert_eq!(merge_result.warnings.len(), 0);
    assert_eq!(merge_result.events.len(), 1);

    // verify that the group was deleted
    assert_eq!(n_entries(&destination_db), entry_count_before);
    assert_eq!(n_groups(&destination_db), group_count_before - 1);

    assert!(destination_db.group(NEW_GROUP_ID).is_none());
    assert!(destination_db.deletion(NEW_GROUP_ID.uuid()).is_some());
}

/// Test that an entry that is marked as deleted in the source database but modified in
/// destination is not deleted
#[test]
fn test_deleted_entry_in_source_modified_in_destination() {
    let mut destination_db = create_test_database();
    add_entry(&mut destination_db, ROOT_GROUP_ID, NEW_ENTRY_ID, "", at(0));
    track_entry(&mut destination_db, NEW_ENTRY_ID, at(0), |e| e.set_unprotected("Title", "deleted_entry"));

    let entry_count_before = n_entries(&destination_db);
    let group_count_before = n_groups(&destination_db);

    let mut source_db = destination_db.clone();

    // mark the entry as deleted in source_db
    remove_entry(&mut source_db, NEW_ENTRY_ID, at(0));

    // modify the entry in destination_db
    track_entry(&mut destination_db, NEW_ENTRY_ID, at(1), |e| e.set_unprotected("Title", "modified_in_destination"));

    let merge_result = destination_db.merge(&source_db).unwrap();
    assert_eq!(merge_result.warnings.len(), 0);
    assert_eq!(merge_result.events.len(), 0);

    assert_eq!(n_entries(&destination_db), entry_count_before);
    assert_eq!(n_groups(&destination_db), group_count_before);

    assert!(destination_db.entry(NEW_ENTRY_ID).is_some());
    assert!(destination_db.deletion(NEW_ENTRY_ID.uuid()).is_none());
}

/// Test that a group subtree that is marked as deleted in the source database is deleted from
/// destination
#[test]
fn test_group_subtree_deletion() {
    let mut destination_db = create_test_database();
    add_group(&mut destination_db, ROOT_GROUP_ID, NEW_GROUP_ID, "deleted_group", at(0));
    add_group(&mut destination_db, NEW_GROUP_ID, NEW_SUBGROUP_ID, "deleted_subgroup", at(0));
    add_entry(&mut destination_db, NEW_SUBGROUP_ID, NEW_ENTRY_ID, "", at(0));
    track_entry(&mut destination_db, NEW_ENTRY_ID, at(0), |e| e.set_unprotected("Title", "deleted_entry"));

    let mut source_db = destination_db.clone();

    // mark the entire group subtree as deleted in source_db
    remove_group(&mut source_db, NEW_GROUP_ID, at(0));

    let entry_count_before = n_entries(&destination_db);
    let group_count_before = n_groups(&destination_db);

    // perform the merge - the entire subtree should be deleted
    let merge_result = destination_db.merge(&source_db).unwrap();
    assert_eq!(merge_result.warnings.len(), 0);
    assert_eq!(merge_result.events.len(), 3);

    assert_eq!(n_entries(&destination_db), entry_count_before - 1);
    assert_eq!(n_groups(&destination_db), group_count_before - 2);

    assert!(destination_db.entry(NEW_ENTRY_ID).is_none());
    assert!(destination_db.group(NEW_SUBGROUP_ID).is_none());
    assert!(destination_db.group(NEW_GROUP_ID).is_none());

    assert!(destination_db.deletion(NEW_ENTRY_ID.uuid()).is_some());
    assert!(destination_db.deletion(NEW_SUBGROUP_ID.uuid()).is_some());
    assert!(destination_db.deletion(NEW_GROUP_ID.uuid()).is_some());
}

/// Test that a tree that was deleted in source, but contains a group that is newer in
/// destination is only partially deleted.
#[test]
fn test_group_subtree_partial_deletion() {
    let mut destination_db = create_test_database();
    add_group(&mut destination_db, ROOT_GROUP_ID, NEW_GROUP_ID, "deleted_group", at(0));
    add_group(&mut destination_db, NEW_GROUP_ID, NEW_SUBGROUP_ID, "deleted_subgroup", at(0));
    add_entry(&mut destination_db, NEW_SUBGROUP_ID, NEW_ENTRY_ID, "deleted_entry", at(0));

    let mut source_db = destination_db.clone();

    // mark the entire group subtree as deleted in source_db
    remove_group(&mut source_db, NEW_GROUP_ID, at(1));

    // modify the deleted group in destination_db to be newer than the deletion time
    track_group(&mut destination_db, NEW_GROUP_ID, at(2), |g| {
        g.notes = Some("modified in destination".to_string());
    });

    let entry_count_before = n_entries(&destination_db);
    let group_count_before = n_groups(&destination_db);

    // perform the merge - the entry and subgroup should be deleted, but the group should
    // remain
    let merge_result = destination_db.merge(&source_db).unwrap();
    assert_eq!(merge_result.warnings.len(), 0);
    assert_eq!(merge_result.events.len(), 2);

    assert_eq!(n_entries(&destination_db), entry_count_before - 1);
    assert_eq!(n_groups(&destination_db), group_count_before - 1);

    assert!(destination_db.entry(NEW_ENTRY_ID).is_none());
    assert!(destination_db.group(NEW_SUBGROUP_ID).is_none());
    assert!(destination_db.group(NEW_GROUP_ID).is_some());

    assert!(destination_db.deletion(NEW_ENTRY_ID.uuid()).is_some());
    assert!(destination_db.deletion(NEW_SUBGROUP_ID.uuid()).is_some());
    assert!(destination_db.deletion(NEW_GROUP_ID.uuid()).is_none());
}

/// Test that a group that is marked as deleted in the source database but modified in
/// destination is not deleted
#[test]
fn test_deleted_group_in_source_modified_in_destination() {
    let mut destination_db = create_test_database();
    add_group(&mut destination_db, ROOT_GROUP_ID, NEW_GROUP_ID, "deleted_group", at(0));

    let mut source_db = destination_db.clone();

    // mark the group as deleted in source_db
    remove_group(&mut source_db, NEW_GROUP_ID, at(0));

    // modify the group in destination_db
    track_group(&mut destination_db, NEW_GROUP_ID, at(1), |g| {
        g.notes = Some("modified_in_destination".to_string());
    });

    let entry_count_before = n_entries(&destination_db);
    let group_count_before = n_groups(&destination_db);

    // perform the merge - the group should not be deleted
    let merge_result = destination_db.merge(&source_db).unwrap();
    assert_eq!(merge_result.warnings.len(), 0);
    assert_eq!(merge_result.events.len(), 0);

    assert_eq!(n_entries(&destination_db), entry_count_before);
    assert_eq!(n_groups(&destination_db), group_count_before);

    assert!(destination_db.group(NEW_GROUP_ID).is_some());

    assert!(destination_db.deletion(NEW_GROUP_ID.uuid()).is_none());
}

/// Test that a group that is marked as deleted in the source database but has new entries
/// added in destination is not deleted
#[test]
fn test_deleted_group_has_new_entries() {
    let mut destination_db = create_test_database();
    add_group(&mut destination_db, ROOT_GROUP_ID, NEW_GROUP_ID, "deleted_group", at(0));

    let mut source_db = destination_db.clone();

    // mark the group as deleted in source_db
    remove_group(&mut source_db, NEW_GROUP_ID, at(0));

    // add a new entry to the deleted group in destination_db
    add_entry(&mut destination_db, NEW_GROUP_ID, NEW_ENTRY_ID, "", at(1));
    track_entry(&mut destination_db, NEW_ENTRY_ID, at(1), |e| {
        e.set_unprotected("Title", "new_entry_in_deleted_group");
    });

    let entry_count_before = n_entries(&destination_db);
    let group_count_before = n_groups(&destination_db);

    // perform the merge - the group should not be deleted
    let merge_result = destination_db.merge(&source_db).unwrap();
    assert_eq!(merge_result.warnings.len(), 0);
    assert_eq!(merge_result.events.len(), 0);

    assert_eq!(n_entries(&destination_db), entry_count_before);
    assert_eq!(n_groups(&destination_db), group_count_before);

    assert!(destination_db.group(NEW_GROUP_ID).is_some());
    assert!(destination_db.entry(NEW_ENTRY_ID).is_some());

    assert!(destination_db.deletion(NEW_GROUP_ID.uuid()).is_none());
    assert!(destination_db.deletion(NEW_ENTRY_ID.uuid()).is_none());
}

/// Test that a new entry in a non-root group in source is added to destination when merging.
#[test]
fn test_add_new_non_root_entry() {
    let mut destination_db = create_test_database();
    let mut source_db = destination_db.clone();

    let entry_count_before = n_entries(&destination_db);
    let group_count_before = n_groups(&destination_db);

    add_entry(&mut source_db, GROUP1_ID, NEW_ENTRY_ID, "", at(1));
    track_entry(&mut source_db, NEW_ENTRY_ID, at(1), |e| e.set_unprotected("Title", "new_entry"));

    // perform the merge - this should add the new entry
    let merge_result = destination_db.merge(&source_db).unwrap();
    assert_eq!(merge_result.warnings.len(), 0);
    assert_eq!(merge_result.events.len(), 1);

    assert_eq!(n_entries(&destination_db), entry_count_before + 1);
    assert_eq!(n_groups(&destination_db), group_count_before);

    assert!(destination_db.entry(NEW_ENTRY_ID).is_some());
}

// Test that a new entry in source under a new group/subgroup is added to destination when
// merging.
#[test]
fn test_add_new_entry_new_group() {
    let mut destination_db = create_test_database();
    let mut source_db = destination_db.clone();

    let entry_count_before = n_entries(&destination_db);
    let group_count_before = n_groups(&destination_db);

    add_group(&mut source_db, ROOT_GROUP_ID, NEW_GROUP_ID, "new_group", at(1));
    add_group(&mut source_db, NEW_GROUP_ID, NEW_SUBGROUP_ID, "new_subgroup", at(1));
    add_entry(&mut source_db, NEW_SUBGROUP_ID, NEW_ENTRY_ID, "", at(1));
    track_entry(&mut source_db, NEW_ENTRY_ID, at(1), |e| e.set_unprotected("Title", "new_entry"));

    // perform the merge - this should add the new entry along with the new group and subgroup
    let merge_result = destination_db.merge(&source_db).unwrap();
    assert_eq!(merge_result.warnings.len(), 0);
    assert_eq!(merge_result.events.len(), 3);

    assert_eq!(n_entries(&destination_db), entry_count_before + 1);
    assert_eq!(n_groups(&destination_db), group_count_before + 2);

    assert!(destination_db.group(NEW_GROUP_ID).is_some());
    assert!(destination_db.group(NEW_SUBGROUP_ID).is_some());
    assert!(destination_db.entry(NEW_ENTRY_ID).is_some());
}

/// Test that an entry is relocated from one group to another in source and the relocation
/// is reflected in destination when merging.
#[test]
fn test_entry_relocation_existing_group() {
    let mut destination_db = create_test_database();
    let mut source_db = destination_db.clone();

    let entry_count_before = n_entries(&destination_db);
    let group_count_before = n_groups(&destination_db);

    move_entry(&mut source_db, ENTRY2_ID, GROUP2_ID, at(1));

    let location_changed_timestamp = source_db.entry(ENTRY2_ID).unwrap().times.location_changed.unwrap();

    // perform the merge - this should relocate the entry in destination_db
    let merge_result = destination_db.merge(&source_db).unwrap();
    assert_eq!(merge_result.warnings.len(), 0);
    assert_eq!(merge_result.events.len(), 1);

    assert_eq!(n_groups(&destination_db), group_count_before);
    assert_eq!(n_entries(&destination_db), entry_count_before);

    let entry = destination_db.entry(ENTRY2_ID).unwrap();
    assert_eq!(entry.parent, GROUP2_ID);
    assert_eq!(entry.times.location_changed, Some(location_changed_timestamp));
}

/// Test that an entry is relocated in source and modified in both source and destination
/// and the correct content is kept after merging.
#[test]
fn test_entry_relocation_and_update() {
    let mut destination_db = create_test_database();
    let mut source_db = destination_db.clone();

    let entry_count_before = n_entries(&destination_db);
    let group_count_before = n_groups(&destination_db);

    // perform first edit of entry in source
    track_entry(&mut source_db, ENTRY2_ID, at(1), |e| e.set_unprotected("Title", "entry2_modified_in_source"));

    // relocate entry in source
    move_entry(&mut source_db, ENTRY2_ID, GROUP2_ID, at(1));

    let location_changed_timestamp = source_db.entry(ENTRY2_ID).unwrap().times.location_changed.unwrap();

    // perform second edit of entry in destination
    track_entry(&mut destination_db, ENTRY2_ID, at(2), |e| {
        e.set_unprotected("Title", "entry2_modified_in_destination");
    });

    let entry_modified_timestamp = destination_db.entry(ENTRY2_ID).unwrap().times.last_modification.unwrap();

    // perform the merge - this should relocate the entry in destination_db and keep the
    // content from destination_db since it was modified later
    let merge_result = destination_db.merge(&source_db).unwrap();
    assert_eq!(merge_result.warnings.len(), 0);
    assert_eq!(merge_result.events.len(), 1);

    assert_eq!(n_groups(&destination_db), group_count_before);
    assert_eq!(n_entries(&destination_db), entry_count_before);

    // check that move occurred
    let entry = destination_db.entry(ENTRY2_ID).unwrap();
    assert_eq!(entry.parent, GROUP2_ID);
    assert_eq!(entry.times.location_changed, Some(location_changed_timestamp));

    // check that content from destination is kept
    assert_eq!(entry.get("Title"), Some("entry2_modified_in_destination"));
    assert_eq!(entry.times.last_modification, Some(entry_modified_timestamp));
}

/// Test that if an entry is moved in source and modified in destination, the entry stays
/// in the new location and gets the modifications.
#[test]
fn test_entry_relocation_in_destination_and_update() {
    let mut destination_db = create_test_database();
    let mut source_db = destination_db.clone();

    let entry_count_before = n_entries(&destination_db);
    let group_count_before = n_groups(&destination_db);

    // edit entry in source
    track_entry(&mut source_db, ENTRY2_ID, at(1), |e| e.set_unprotected("Title", "entry2_modified_in_source"));

    let entry_modified_timestamp = source_db.entry(ENTRY2_ID).unwrap().times.last_modification.unwrap();

    // relocate entry in destination
    move_entry(&mut destination_db, ENTRY2_ID, GROUP2_ID, at(1));

    let location_changed_timestamp = destination_db.entry(ENTRY2_ID).unwrap().times.location_changed.unwrap();

    // perform the merge - this should keep the location from destination and the content from
    // source
    let merge_result = destination_db.merge(&source_db).unwrap();
    assert_eq!(merge_result.warnings.len(), 0);
    assert_eq!(merge_result.events.len(), 1);

    assert_eq!(n_groups(&destination_db), group_count_before);
    assert_eq!(n_entries(&destination_db), entry_count_before);

    // check that move occurred
    let entry = destination_db.entry(ENTRY2_ID).unwrap();
    assert_eq!(entry.parent, GROUP2_ID);
    assert_eq!(entry.times.location_changed, Some(location_changed_timestamp));

    // check that content from source is kept
    assert_eq!(entry.get("Title"), Some("entry2_modified_in_source"));
    assert_eq!(entry.times.last_modification, Some(entry_modified_timestamp));
}

/// Test that an entry can be relocated into a newly created group
#[test]
fn test_entry_relocation_new_group() {
    let mut destination_db = create_test_database();
    add_entry(&mut destination_db, ROOT_GROUP_ID, NEW_ENTRY_ID, "new_entry", at(0));

    let entry_count_before = n_entries(&destination_db);
    let group_count_before = n_groups(&destination_db);

    let mut source_db = destination_db.clone();
    add_group(&mut source_db, ROOT_GROUP_ID, NEW_GROUP_ID, "new_group", at(0));

    // modify the entry in source
    track_entry(&mut source_db, NEW_ENTRY_ID, at(1), |e| {
        e.set_unprotected("Title", "new_entry_modified_in_source");
    });

    // relocate the entry to the new group in source
    move_entry(&mut source_db, NEW_ENTRY_ID, NEW_GROUP_ID, at(1));

    // perform the merge - this should create the new group and update and relocate the entry there
    let merge_result = destination_db.merge(&source_db).unwrap();
    assert_eq!(merge_result.warnings.len(), 0);
    assert_eq!(merge_result.events.len(), 3);

    assert_eq!(n_entries(&destination_db), entry_count_before);
    assert_eq!(n_groups(&destination_db), group_count_before + 1);

    let entry = destination_db.entry(NEW_ENTRY_ID).unwrap();
    assert_eq!(entry.parent, NEW_GROUP_ID);
    assert_eq!(entry.get("Title"), Some("new_entry_modified_in_source"));
}

/// Test that a group relocation in source is reflected in destination when merging.
#[test]
fn test_group_relocation() {
    let mut destination_db = create_test_database();
    let mut source_db = destination_db.clone();

    let entry_count_before = n_entries(&destination_db);
    let group_count_before = n_groups(&destination_db);

    move_group(&mut source_db, SUBGROUP1_ID, GROUP2_ID, at(1));

    let location_changed_timestamp = source_db.group(SUBGROUP1_ID).unwrap().times.location_changed.unwrap();

    // perform the merge - this should relocate the group in destination_db
    let merge_result = destination_db.merge(&source_db).unwrap();
    assert_eq!(merge_result.warnings.len(), 0);
    assert_eq!(merge_result.events.len(), 1);

    assert_eq!(n_entries(&destination_db), entry_count_before);
    assert_eq!(n_groups(&destination_db), group_count_before);

    assert!(destination_db.entry(ENTRY2_ID).is_some());

    let group = destination_db.group(SUBGROUP1_ID).unwrap();
    assert_eq!(group.parent, Some(GROUP2_ID));
    assert_eq!(group.times.location_changed, Some(location_changed_timestamp));
}

/// Test that an entry updated in destination is not touched when merging.
#[test]
fn test_update_in_destination_no_conflict() {
    let mut destination_db = create_test_database();
    let source_db = destination_db.clone();

    let entry_count_before = n_entries(&destination_db);
    let group_count_before = n_groups(&destination_db);

    // update entry in destination
    track_entry(&mut destination_db, ENTRY1_ID, at(1), |e| e.set_unprotected("Title", "entry1_updated"));

    // perform the merge - this should not change anything since source is older
    let merge_result = destination_db.merge(&source_db).unwrap();
    assert_eq!(merge_result.warnings.len(), 0);
    assert_eq!(merge_result.events.len(), 0);

    // check that history is preserved
    let merged_history = destination_db.entry(ENTRY1_ID).unwrap().history.clone().unwrap();
    assert_history_ordered(&merged_history);
    assert_eq!(merged_history.entries.len(), 1);

    // check that we can find the old version of the entry
    assert_eq!(merged_history.entries[0].get("Title"), Some("entry1"));

    assert_eq!(n_entries(&destination_db), entry_count_before);
    assert_eq!(n_groups(&destination_db), group_count_before);

    assert_eq!(title(&destination_db, ENTRY1_ID), "entry1_updated");
}

/// Test that an entry updated in source is merged into destination when merging.
#[test]
fn test_update_in_source_no_conflict() {
    let mut destination_db = create_test_database();
    let mut source_db = destination_db.clone();

    let entry_count_before = n_entries(&destination_db);
    let group_count_before = n_groups(&destination_db);

    // update entry in source
    track_entry(&mut source_db, ENTRY1_ID, at(1), |e| e.set_unprotected("Title", "entry1_updated"));

    // perform the merge - this should update the entry in destination_db
    let merge_result = destination_db.merge(&source_db).unwrap();
    assert_eq!(merge_result.warnings.len(), 0);
    assert_eq!(merge_result.events.len(), 1);

    // check that history is preserved
    let merged_history = destination_db.entry(ENTRY1_ID).unwrap().history.clone().unwrap();
    assert_history_ordered(&merged_history);
    assert_eq!(merged_history.entries.len(), 1);

    // check that we can find the old version of the entry
    assert_eq!(merged_history.entries[0].get("Title"), Some("entry1"));

    assert_eq!(n_entries(&destination_db), entry_count_before);
    assert_eq!(n_groups(&destination_db), group_count_before);

    // check that the entry was updated
    assert_eq!(title(&destination_db, ENTRY1_ID), "entry1_updated");
}

/// Test that an entry updated in both source and destination is merged correctly.
#[test]
fn test_update_with_conflicts() {
    let mut destination_db = create_test_database();
    let mut source_db = destination_db.clone();

    let entry_count_before = n_entries(&destination_db);
    let group_count_before = n_groups(&destination_db);

    // update entry in destination
    track_entry(&mut destination_db, ENTRY1_ID, at(1), |e| {
        e.set_unprotected("Title", "entry1_updated_from_destination");
    });

    // update entry in source
    track_entry(&mut source_db, ENTRY1_ID, at(2), |e| e.set_unprotected("Title", "entry1_updated_from_source"));

    // perform the merge - this should merge the changes from both databases, keeping the newer
    let merge_result = destination_db.merge(&source_db).unwrap();
    assert_eq!(merge_result.warnings.len(), 0);
    assert_eq!(merge_result.events.len(), 1);

    assert_eq!(n_entries(&destination_db), entry_count_before);
    assert_eq!(n_groups(&destination_db), group_count_before);

    // check that the entry was updated with the source change (newer)
    let entry = destination_db.entry(ENTRY1_ID).unwrap();
    assert_eq!(entry.get("Title"), Some("entry1_updated_from_source"));

    // check that history is preserved and contains both older versions
    let merged_history = entry.history.clone().unwrap();
    assert_history_ordered(&merged_history);
    assert_eq!(merged_history.entries.len(), 2);
    assert_eq!(merged_history.entries[0].get("Title"), Some("entry1_updated_from_destination"));
    assert_eq!(merged_history.entries[1].get("Title"), Some("entry1"));

    // Merging again should not result in any additional change.
    let merge_result = destination_db.clone().merge(&destination_db).unwrap();
    assert_eq!(merge_result.warnings.len(), 0);
    assert_eq!(merge_result.events.len(), 0);
}

/// Test that a group updated in source is merged into destination when merging.
#[test]
fn test_group_update_in_source() {
    let mut destination_db = create_test_database();
    let mut source_db = destination_db.clone();

    let entry_count_before = n_entries(&destination_db);
    let group_count_before = n_groups(&destination_db);

    track_group(&mut source_db, SUBGROUP1_ID, at(1), |g| g.name = "subgroup1_updated_name".to_string());

    let modification_timestamp = source_db.group(SUBGROUP1_ID).unwrap().times.last_modification.unwrap();

    // perform the merge - this should update the group in destination
    let merge_result = destination_db.merge(&source_db).unwrap();
    assert_eq!(merge_result.warnings.len(), 0);
    assert_eq!(merge_result.events.len(), 1);

    assert_eq!(n_entries(&destination_db), entry_count_before);
    assert_eq!(n_groups(&destination_db), group_count_before);

    let group = destination_db.group(SUBGROUP1_ID).unwrap();
    assert_eq!(group.name, "subgroup1_updated_name");
    assert_eq!(group.times.last_modification, Some(modification_timestamp));
}

/// Test that a group updated in destination is not changed when merging.
#[test]
fn test_group_update_in_destination() {
    let mut destination_db = create_test_database();
    let source_db = destination_db.clone();

    let entry_count_before = n_entries(&destination_db);
    let group_count_before = n_groups(&destination_db);

    track_group(&mut destination_db, SUBGROUP1_ID, at(1), |g| g.name = "subgroup1_updated_name".to_string());

    let last_modification = destination_db.group(SUBGROUP1_ID).unwrap().times.last_modification.unwrap();

    // perform the merge - this should not change anything since source is older
    let merge_result = destination_db.merge(&source_db).unwrap();
    assert_eq!(merge_result.warnings.len(), 0);
    assert_eq!(merge_result.events.len(), 0);

    assert_eq!(n_entries(&destination_db), entry_count_before);
    assert_eq!(n_groups(&destination_db), group_count_before);

    let group = destination_db.group(SUBGROUP1_ID).unwrap();
    assert_eq!(group.name, "subgroup1_updated_name");
    assert_eq!(group.times.last_modification, Some(last_modification));
}

/// Test that a group updated in source and relocated is merged correctly.
#[test]
fn test_group_update_and_relocation() {
    let mut destination_db = create_test_database();
    let mut source_db = destination_db.clone();

    let entry_count_before = n_entries(&destination_db);
    let group_count_before = n_groups(&destination_db);

    track_group(&mut source_db, SUBGROUP1_ID, at(1), |g| g.name = "subgroup1_updated_name".to_string());
    move_group(&mut source_db, SUBGROUP1_ID, GROUP2_ID, at(1));

    let modification_timestamp = source_db.group(SUBGROUP1_ID).unwrap().times.last_modification.unwrap();
    let location_changed_timestamp = source_db.group(SUBGROUP1_ID).unwrap().times.location_changed.unwrap();

    // perform the merge - this should update and relocate the group in destination
    let merge_result = destination_db.merge(&source_db).unwrap();
    assert_eq!(merge_result.warnings.len(), 0);
    assert_eq!(merge_result.events.len(), 2);

    assert_eq!(n_entries(&destination_db), entry_count_before);
    assert_eq!(n_groups(&destination_db), group_count_before);

    let group = destination_db.group(SUBGROUP1_ID).unwrap();
    assert_eq!(group.name, "subgroup1_updated_name");
    assert_eq!(group.parent, Some(GROUP2_ID));
    assert_eq!(group.times.last_modification, Some(modification_timestamp));
    assert_eq!(group.times.location_changed, Some(location_changed_timestamp));
}

/// Test that a group updated in source and relocated in destination is merged correctly.
#[test]
fn test_group_update_in_destination_and_relocation_in_source() {
    let mut destination_db = create_test_database();
    let mut source_db = destination_db.clone();

    let entry_count_before = n_entries(&destination_db);
    let group_count_before = n_groups(&destination_db);

    // rename group in source
    track_group(&mut source_db, SUBGROUP1_ID, at(1), |g| g.name = "subgroup1_updated_name".to_string());

    let modification_timestamp = source_db.group(SUBGROUP1_ID).unwrap().times.last_modification.unwrap();

    // relocate group in destination
    move_group(&mut destination_db, SUBGROUP1_ID, GROUP2_ID, at(1));

    let location_changed_timestamp = destination_db.group(SUBGROUP1_ID).unwrap().times.location_changed.unwrap();

    // perform the merge - this should update the group name from source and keep the new
    // location from destination
    let merge_result = destination_db.merge(&source_db).unwrap();
    assert_eq!(merge_result.warnings.len(), 0);
    assert_eq!(merge_result.events.len(), 1);

    assert_eq!(n_entries(&destination_db), entry_count_before);
    assert_eq!(n_groups(&destination_db), group_count_before);

    let group = destination_db.group(SUBGROUP1_ID).unwrap();
    assert_eq!(group.name, "subgroup1_updated_name");
    assert_eq!(group.parent, Some(GROUP2_ID));
    assert_eq!(group.times.last_modification, Some(modification_timestamp));
    assert_eq!(group.times.location_changed, Some(location_changed_timestamp));
}

#[test]
fn test_merge_untracked_group_history() {
    let mut destination_db = create_test_database();
    let mut source_db = destination_db.clone();

    // this is an invalid edit as the last modified timestamp of the group is not updated
    edit_group(&mut source_db, GROUP1_ID, |g| g.name = "group1_updated_name".to_string());
    source_db.move_group(GROUP1_ID, GROUP2_ID).expect("move successful");

    assert_eq!(
        destination_db.group(GROUP1_ID).unwrap().times,
        source_db.group(GROUP1_ID).unwrap().times
    );

    // there will be an error during merge since the edit in source_db is not tracked and has
    // the same timestamp as the group in destination_db
    assert!(destination_db.merge(&source_db).is_err());

    // remove the timestamps to test warnings
    for db in [&mut destination_db, &mut source_db] {
        edit_group(db, GROUP1_ID, |g| {
            g.times.last_modification = None;
            g.times.location_changed = None;
        });
    }

    let merge_result = destination_db.merge(&source_db).unwrap();
    assert_eq!(merge_result.warnings.len(), 3);
    assert_eq!(merge_result.events.len(), 0);
    assert_eq!(
        merge_result.warnings,
        vec![
            "Cannot determine which group 00000000-0000-0000-0000-000000000002 move is more recent because one of the groups does not have a location changed timestamp.",
            "Destination group 00000000-0000-0000-0000-000000000002 did not have a last modification timestamp",
            "Source group 00000000-0000-0000-0000-000000000002 did not have a last modification timestamp",
        ]
    );
}

#[test]
fn test_merge_untracked_entry_history() {
    let mut destination_db = create_test_database();
    let mut source_db = destination_db.clone();

    // this is an invalid edit as the last modified timestamp of the entry is not updated
    edit_entry(&mut source_db, ENTRY1_ID, |e| {
        e.set_unprotected("Title", "entry1_updated_title");
        e.parent = GROUP2_ID;
    });

    assert_eq!(
        destination_db.entry(ENTRY1_ID).unwrap().times,
        source_db.entry(ENTRY1_ID).unwrap().times
    );

    // there will be an error during merge since the edit in source_db is not tracked and has
    // the same timestamp as the entry in destination_db
    assert!(destination_db.merge(&source_db).is_err());

    // remove the timestamps to test warnings
    for db in [&mut destination_db, &mut source_db] {
        edit_entry(db, ENTRY1_ID, |e| {
            e.times.last_modification = None;
            e.times.location_changed = None;
        });
    }

    let merge_result = destination_db.merge(&source_db).unwrap();
    assert_eq!(merge_result.warnings.len(), 3);
    assert_eq!(merge_result.events.len(), 0);
    assert_eq!(
        merge_result.warnings,
        vec![
            "Cannot determine which entry 00000000-0000-0000-0000-000000000006 move is more recent because one of the entries does not have a location changed timestamp.",
            "Source entry 00000000-0000-0000-0000-000000000006 did not have a last modification timestamp",
            "Destination entry 00000000-0000-0000-0000-000000000006 did not have a last modification timestamp",
        ]
    );
}

#[test]
fn merge_imports_attachment_on_new_entry() {
    let mut destination_db = create_test_database();
    let mut source_db = destination_db.clone();
    add_entry(&mut source_db, ROOT_GROUP_ID, NEW_ENTRY_ID, "", at(1));
    add_attachment(&mut source_db, NEW_ENTRY_ID, "secret.bin", Value::protected(vec![1, 2, 3]));

    destination_db.merge(&source_db).unwrap();

    let data = attached(&destination_db, NEW_ENTRY_ID, "secret.bin").unwrap();
    assert_eq!(data.get(), &[1, 2, 3]);
    assert!(data.is_protected());
    assert_eq!(destination_db.attachment_ids().len(), 1);
}

#[test]
fn merge_remaps_colliding_attachment_ids() {
    let mut destination_db = create_test_database();
    let mut source_db = destination_db.clone();

    let local = add_attachment(&mut destination_db, ENTRY2_ID, "local.bin", Value::unprotected(vec![4, 5, 6]));
    set_modified(&mut destination_db, ENTRY2_ID, at(61));
    let remote = add_attachment(&mut source_db, ENTRY1_ID, "remote.bin", Value::unprotected(vec![7, 8, 9]));
    set_modified(&mut source_db, ENTRY1_ID, at(62));
    assert_eq!(local, remote);

    destination_db.merge(&source_db).unwrap();

    assert_eq!(destination_db.attachment_ids().len(), 2);
    assert_eq!(attached(&destination_db, ENTRY2_ID, "local.bin").unwrap().get(), &[4, 5, 6]);
    assert_eq!(attached(&destination_db, ENTRY1_ID, "remote.bin").unwrap().get(), &[7, 8, 9]);
}

#[test]
fn merge_preserves_replaced_attachment_in_history() {
    let mut destination_db = create_test_database();
    add_attachment(&mut destination_db, ENTRY1_ID, "old.bin", Value::unprotected(vec![1, 1, 1]));
    let mut source_db = destination_db.clone();

    edit_entry(&mut source_db, ENTRY1_ID, |e| e.attachments.remove("old.bin"));
    add_attachment(&mut source_db, ENTRY1_ID, "new.bin", Value::unprotected(vec![2, 2, 2]));
    set_modified(&mut source_db, ENTRY1_ID, at(61));

    destination_db.merge(&source_db).unwrap();

    assert!(attached(&destination_db, ENTRY1_ID, "old.bin").is_none());
    assert_eq!(attached(&destination_db, ENTRY1_ID, "new.bin").unwrap().get(), &[2, 2, 2]);
    let entry = destination_db.entry(ENTRY1_ID).unwrap();
    let old_version = entry
        .history
        .as_ref()
        .unwrap()
        .entries
        .iter()
        .find(|historical| historical.attachments.get("old.bin").is_some())
        .expect("destination attachment must survive in history");
    let old_id = *old_version.attachments.get("old.bin").unwrap();
    assert_eq!(destination_db.attachment(old_id).unwrap().data.get(), &[1, 1, 1]);
}

#[test]
fn merge_reuses_equal_attachment_values() {
    let mut destination_db = create_test_database();
    let mut source_db = destination_db.clone();
    add_attachment(&mut destination_db, ENTRY2_ID, "existing.bin", Value::protected(vec![4, 2]));
    set_modified(&mut destination_db, ENTRY2_ID, at(61));

    add_attachment(&mut source_db, ENTRY1_ID, "same-data.bin", Value::protected(vec![4, 2]));
    set_modified(&mut source_db, ENTRY1_ID, at(62));

    destination_db.merge(&source_db).unwrap();

    assert_eq!(destination_db.attachment_ids().len(), 1);
    let first = *destination_db.entry(ENTRY1_ID).unwrap().attachments.get("same-data.bin").unwrap();
    let second = *destination_db.entry(ENTRY2_ID).unwrap().attachments.get("existing.bin").unwrap();
    assert_eq!(first, second);
    let places = &destination_db.attachment(first).unwrap().entries;
    assert_eq!(places.iter().filter(|place| place.1.is_none()).count(), 2);
}

#[test]
fn merge_rejects_dangling_source_attachment_reference() {
    let mut destination_db = create_test_database();
    let mut source_db = destination_db.clone();
    add_entry(&mut source_db, ROOT_GROUP_ID, NEW_ENTRY_ID, "", at(1));
    edit_entry(&mut source_db, NEW_ENTRY_ID, |e| {
        e.attachments.insert("missing.bin".into(), AttachmentId::new(99));
    });

    let error = destination_db.merge(&source_db).unwrap_err();
    assert!(matches!(error, MergeError::AttachmentNotFound(_)));
    assert_eq!(error, MergeError::AttachmentNotFound(AttachmentId::new(99)));
}

/// An entry that was changed without noting when cannot be merged.
#[test]
fn an_untracked_edit_of_an_entry_is_refused() {
    let mut dest = create_test_database();
    let mut source = dest.clone();
    edit_entry(&mut source, ENTRY1_ID, |e| e.set_unprotected("Title", "other"));
    assert_eq!(dest.merge(&source).unwrap_err(), MergeError::EntryModificationTimeNotUpdated(ENTRY1_ID));
}

/// A group that was changed without noting when cannot be merged.
#[test]
fn an_untracked_edit_of_a_group_is_refused() {
    let mut dest = create_test_database();
    let mut source = dest.clone();
    edit_group(&mut source, GROUP2_ID, |g| g.name = "other".to_string());
    assert_eq!(dest.merge(&source).unwrap_err(), MergeError::GroupModificationTimeNotUpdated(GROUP2_ID));
}

/// Two groups that traded places in the source trade places in the destination.
#[test]
fn groups_can_trade_places() {
    let mut dest = create_test_database();
    let mut source = dest.clone();
    // group1 -> subgroup1 becomes subgroup1 -> group1
    move_group(&mut source, SUBGROUP1_ID, ROOT_GROUP_ID, at(1));
    move_group(&mut source, GROUP1_ID, SUBGROUP1_ID, at(1));

    let log = dest.merge(&source).unwrap();
    assert_eq!(log.events.len(), 2);
    assert!(log.events.contains(&group_event(GROUP1_ID, MergeEventType::LocationUpdated)));
    assert!(log.events.contains(&group_event(SUBGROUP1_ID, MergeEventType::LocationUpdated)));
    assert_eq!(dest.group(GROUP1_ID).unwrap().parent, Some(SUBGROUP1_ID));
    assert_eq!(dest.group(SUBGROUP1_ID).unwrap().parent, Some(ROOT_GROUP_ID));
    assert_eq!(dest, source);
}

/// Moves that would put two groups into each other are refused.
#[test]
fn moves_into_each_other_are_refused() {
    let mut dest = create_test_database();
    let mut source = dest.clone();
    // Here group2 goes into group1, there group1 goes into group2.
    move_group(&mut dest, GROUP2_ID, GROUP1_ID, at(9));
    move_group(&mut source, GROUP1_ID, GROUP2_ID, at(1));
    let error = dest.merge(&source).unwrap_err();
    assert_eq!(error, MergeError::MoveGroupError(keepass::db::database::MoveGroupError::IntoOwnSubtree));
}

/// The root of the destination is not moved, even if it is no root in the source.
#[test]
fn the_root_is_not_moved() {
    let other_root = GroupId { uuid: 50 };
    let mut dest = Database::new_with_root_id(ROOT_GROUP_ID);
    edit_group(&mut dest, ROOT_GROUP_ID, |g| {
        g.times.last_modification = Some(at(0));
        g.times.location_changed = Some(at(0));
    });
    add_group(&mut dest, ROOT_GROUP_ID, other_root, "other", at(0));

    let mut source = Database::new_with_root_id(other_root);
    edit_group(&mut source, other_root, |g| {
        g.name = "other".to_string();
        g.times.last_modification = Some(at(0));
        g.times.location_changed = Some(at(0));
    });
    add_group(&mut source, other_root, ROOT_GROUP_ID, "", at(0));
    edit_group(&mut source, ROOT_GROUP_ID, |g| g.times.location_changed = Some(at(1)));

    let error = dest.merge(&source).unwrap_err();
    assert_eq!(error, MergeError::MoveGroupError(keepass::db::database::MoveGroupError::RootGroup));
    assert_eq!(dest.root_id(), ROOT_GROUP_ID);
    assert_eq!(dest.group(ROOT_GROUP_ID).unwrap().parent, None);
}

/// A group that became the root of the source stays where it is, with a warning.
#[test]
fn a_group_is_not_moved_to_the_root() {
    let other_root = GroupId { uuid: 50 };
    let mut dest = Database::new_with_root_id(ROOT_GROUP_ID);
    add_group(&mut dest, ROOT_GROUP_ID, other_root, "other", at(0));

    let mut source = Database::new_with_root_id(other_root);
    edit_group(&mut source, other_root, |g| {
        g.name = "other".to_string();
        g.times.last_modification = Some(at(5));
        g.times.location_changed = Some(at(5));
    });

    let before = dest.clone();
    let log = dest.merge(&source).unwrap();
    assert_eq!(log.warnings, vec!["Cannot move root group 00000000-0000-0000-0000-000000000032"]);
    assert_eq!(log.events.len(), 0);
    assert_eq!(dest, before);
}

/// A group whose new place is missing stays where it is, with a warning.
#[test]
fn a_group_stays_if_its_new_place_is_missing() {
    let mut dest = create_test_database();
    let mut source = dest.clone();
    add_group(&mut source, ROOT_GROUP_ID, NEW_GROUP_ID, "gone", at(0));
    dest.record_deletion(NEW_GROUP_ID.uuid(), Some(at(10)));
    move_group(&mut source, GROUP1_ID, NEW_GROUP_ID, at(1));

    let log = dest.merge(&source).unwrap();
    assert_eq!(
        log.warnings,
        vec!["Cannot move group 00000000-0000-0000-0000-000000000002 to group 00000000-0000-0000-0000-000000000014 because the group does not exist in the destination database."]
    );
    assert_eq!(dest.group(GROUP1_ID).unwrap().parent, Some(ROOT_GROUP_ID));
}

/// Entries whose group is missing stay where they are, or stay away, with a warning.
#[test]
fn entries_need_their_group() {
    let mut dest = create_test_database();
    let mut source = dest.clone();
    add_group(&mut source, ROOT_GROUP_ID, NEW_GROUP_ID, "gone", at(0));
    dest.record_deletion(NEW_GROUP_ID.uuid(), Some(at(10)));
    add_entry(&mut source, NEW_GROUP_ID, NEW_ENTRY_ID, "new", at(0));
    move_entry(&mut source, ENTRY1_ID, NEW_GROUP_ID, at(1));
    set_modified(&mut dest, ENTRY1_ID, at(2));

    let mut log = dest.merge(&source).unwrap();
    log.warnings.sort();
    assert_eq!(
        log.warnings,
        vec![
            "Cannot add entry 00000000-0000-0000-0000-00000000001e because its parent group 00000000-0000-0000-0000-000000000014 does not exist in the destination database.",
            "Cannot move entry 00000000-0000-0000-0000-000000000006 to group 00000000-0000-0000-0000-000000000014 because the group does not exist in the destination database.",
        ]
    );
    assert!(dest.entry(NEW_ENTRY_ID).is_none());
    assert_eq!(dest.entry(ENTRY1_ID).unwrap().parent, ROOT_GROUP_ID);
}

/// Versions without a date count as old, versions of the same moment are both kept, and all of it
/// is reported.
#[test]
fn histories_are_merged_with_warnings() {
    let mut dest = create_test_database();
    let mut source = dest.clone();
    track_entry(&mut dest, ENTRY1_ID, at(5), |e| e.set_unprotected("Title", "here"));
    track_entry(&mut source, ENTRY1_ID, at(4), |e| e.set_unprotected("Title", "there"));
    edit_entry(&mut source, ENTRY1_ID, |e| {
        let history = e.history.as_mut().unwrap();
        history.entries[0].set_unprotected("Title", "entry1 there");
        let mut undated = history.entries[0].clone();
        undated.times.last_modification = None;
        history.entries.push(undated);
    });

    let log = dest.merge(&source).unwrap();
    assert_eq!(
        log.warnings,
        vec![
            "Source history entry 00000000-0000-0000-0000-000000000006 did not have a last modification timestamp",
            "History entries for 00000000-0000-0000-0000-000000000006 have the same modification timestamp 2023-11-14 22:13:20 but have diverged.",
        ]
    );
    assert_eq!(log.events.len(), 0);
    let history = dest.entry(ENTRY1_ID).unwrap().history.clone().unwrap();
    let titles: Vec<&str> = history.entries.iter().map(|e| e.get("Title").unwrap()).collect();
    assert_eq!(titles, vec!["entry1", "entry1 there", "entry1 there"]);
    assert_eq!(history.entries[2].times.last_modification, Some(NaiveDateTime::epoch()));
    assert_eq!(title(&dest, ENTRY1_ID), "here");
}

/// Entries without a history are merged, with warnings.
#[test]
fn entries_without_history_are_merged_with_warnings() {
    let mut dest = create_test_database();
    let mut source = dest.clone();
    edit_entry(&mut dest, ENTRY1_ID, |e| e.history = None);
    edit_entry(&mut source, ENTRY1_ID, |e| {
        e.history = None;
        e.set_unprotected("Title", "later");
        e.times.last_modification = Some(at(3));
    });

    let log = dest.merge(&source).unwrap();
    assert_eq!(
        log.warnings,
        vec![
            "Source entry 00000000-0000-0000-0000-000000000006 had no history.",
            "Destination entry 00000000-0000-0000-0000-000000000006 had no history.",
        ]
    );
    assert_eq!(log.events, vec![entry_event(ENTRY1_ID, MergeEventType::Updated)]);
    assert_eq!(title(&dest, ENTRY1_ID), "later");
    let history = dest.entry(ENTRY1_ID).unwrap().history.clone().unwrap();
    assert_eq!(history.entries.len(), 1);
    assert_eq!(history.entries[0].get("Title"), Some("entry1"));
}

/// Groups are added from the top down, and each is reported once.
#[test]
fn new_groups_are_reported_from_the_top_down() {
    let mut dest = create_test_database();
    let mut source = dest.clone();
    add_group(&mut source, GROUP1_ID, NEW_GROUP_ID, "a", at(1));
    add_group(&mut source, NEW_GROUP_ID, NEW_SUBGROUP_ID, "b", at(1));
    let log = dest.merge(&source).unwrap();
    assert_eq!(
        log.events,
        vec![
            group_event(NEW_GROUP_ID, MergeEventType::Created),
            group_event(NEW_SUBGROUP_ID, MergeEventType::Created),
        ]
    );
    assert_eq!(dest, source);
}

/// A group that was deleted here comes back if something in it was changed there later, and so
/// does the group above it.
#[test]
fn a_later_change_brings_groups_back() {
    let mut dest = create_test_database();
    let mut source = dest.clone();
    remove_group(&mut dest, GROUP1_ID, at(5));
    track_entry(&mut source, ENTRY2_ID, at(6), |e| e.set_unprotected("Title", "alive"));

    let log = dest.merge(&source).unwrap();
    assert_eq!(
        log.events,
        vec![
            group_event(GROUP1_ID, MergeEventType::Created),
            group_event(SUBGROUP1_ID, MergeEventType::Created),
            entry_event(ENTRY2_ID, MergeEventType::Created),
        ]
    );
    assert_eq!(title(&dest, ENTRY2_ID), "alive");
}

/// A deletion whose moment is unknown gives way to any change whose moment is known here, and
/// stands where the source has it.
#[test]
fn deletions_at_an_unknown_moment() {
    let mut dest = create_test_database();
    let mut source = dest.clone();
    dest.remove_entry(ENTRY1_ID);
    dest.record_deletion(ENTRY1_ID.uuid(), None);
    let log = dest.merge(&source).unwrap();
    assert_eq!(log.events, vec![entry_event(ENTRY1_ID, MergeEventType::Created)]);

    source.remove_entry(ENTRY2_ID);
    source.record_deletion(ENTRY2_ID.uuid(), None);
    let log = dest.merge(&source).unwrap();
    assert_eq!(log.events, vec![entry_event(ENTRY2_ID, MergeEventType::Deleted)]);
    assert_eq!(dest.deletion(ENTRY2_ID.uuid()), Some(None));
}

/// An icon that neither database has is no longer shown.
#[test]
fn an_icon_that_nobody_has_is_no_longer_shown() {
    let mut dest = create_test_database();
    edit_entry(&mut dest, ENTRY1_ID, |e| e.icon = Some(Icon::Custom(ICON_ID)));
    edit_group(&mut dest, GROUP1_ID, |g| g.icon = Some(Icon::Custom(OTHER_ICON_ID)));
    let mut source = create_test_database();
    edit_entry(&mut source, ENTRY1_ID, |e| e.icon = Some(Icon::Custom(ICON_ID)));
    edit_group(&mut source, GROUP1_ID, |g| g.icon = Some(Icon::Custom(OTHER_ICON_ID)));

    dest.merge(&source).unwrap();
    assert_eq!(dest.entry(ENTRY1_ID).unwrap().icon, None);
    assert_eq!(dest.group(GROUP1_ID).unwrap().icon, None);
    assert_eq!(dest.custom_icon_ids().len(), 0);
}

/// After a merge the index of references is right, also for archived versions and groups.
#[test]
fn references_are_indexed_after_a_merge() {
    let mut dest = create_test_database();
    set_icon(&mut dest, ENTRY1_ID, ICON_ID, vec![1]);
    edit_group(&mut dest, GROUP2_ID, |g| g.icon = Some(Icon::Custom(ICON_ID)));
    let file = add_attachment(&mut dest, ENTRY1_ID, "a", Value::unprotected(vec![5]));
    dest.add_attachment(Value::unprotected(vec![6]));
    track_entry(&mut dest, ENTRY1_ID, at(1), |e| {
        e.icon = None;
        e.attachments.insert("b".to_string(), file);
    });
    let source = dest.clone();

    dest.merge(&source).unwrap();
    let icon = dest.custom_icon(ICON_ID).unwrap();
    assert_eq!(icon.entries, vec![(ENTRY1_ID, Some(0))]);
    assert_eq!(icon.groups, vec![GROUP2_ID]);
    assert_eq!(dest.attachment_ids().len(), 1);
    let attachment = dest.attachment(file).unwrap();
    assert_eq!(attachment.entries, vec![(ENTRY1_ID, None), (ENTRY1_ID, Some(0))]);
}

/// Merging a tidy database with itself changes nothing, whatever it holds.
#[test]
fn merging_with_itself_keeps_everything() {
    let mut dest = create_test_database();
    set_icon(&mut dest, ENTRY1_ID, ICON_ID, vec![1]);
    add_attachment(&mut dest, ENTRY1_ID, "a", Value::unprotected(vec![5]));
    track_entry(&mut dest, ENTRY1_ID, at(1), |e| e.set_unprotected("Title", "second"));
    dest.record_deletion(77, None);
    // The first merge records who refers to what.
    dest.merge(&dest.clone()).unwrap();

    let source = dest.clone();
    let log = dest.merge(&source).unwrap();
    assert_eq!(log.warnings.len() + log.events.len(), 0);
    assert_eq!(dest, source);
}

/// Merging the same source a second time changes nothing.
#[test]
fn merging_twice_is_merging_once() {
    let mut dest = create_test_database();
    let mut source = dest.clone();
    track_entry(&mut dest, ENTRY1_ID, at(5), |e| e.set_unprotected("Title", "here"));
    track_entry(&mut source, ENTRY1_ID, at(4), |e| e.set_unprotected("Title", "there"));
    track_entry(&mut source, ENTRY2_ID, at(4), |e| e.set_unprotected("Title", "there"));
    set_icon(&mut source, ENTRY2_ID, ICON_ID, vec![1]);
    add_attachment(&mut source, ENTRY2_ID, "a", Value::unprotected(vec![5]));
    move_group(&mut source, GROUP2_ID, GROUP1_ID, at(3));
    add_group(&mut source, GROUP2_ID, NEW_GROUP_ID, "new", at(3));
    add_entry(&mut source, NEW_GROUP_ID, NEW_ENTRY_ID, "new", at(3));

    let log = dest.merge(&source).unwrap();
    assert_eq!(log.events.len(), 4);
    let once = dest.clone();
    let log = dest.merge(&source).unwrap();
    assert_eq!(log.warnings.len() + log.events.len(), 0);
    assert_eq!(dest, once);
}

/// What counts as modified at the given moment decides what is later.
#[test]
fn an_undated_entry_counts_as_modified_now() {
    let mut dest = create_test_database();
    let mut source = dest.clone();
    edit_entry(&mut dest, ENTRY1_ID, |e| e.times.last_modification = None);
    track_entry(&mut source, ENTRY1_ID, at(10), |e| e.set_unprotected("Title", "there"));

    let mut early = dest.clone();
    early.merge_at(&source, at(9)).unwrap();
    assert_eq!(title(&early, ENTRY1_ID), "there");

    let mut late = dest.clone();
    late.merge_at(&source, at(11)).unwrap();
    assert_eq!(title(&late, ENTRY1_ID), "entry1");
}

/// A database with another root can only be merged if its groups hang below a group that is known.
#[test]
fn a_foreign_root_cannot_be_added() {
    let dest = create_test_database();
    assert!(dest.can_merge(&dest));

    let foreign_root = GroupId { uuid: 60 };
    let mut source = Database::new_with_root_id(foreign_root);
    add_group(&mut source, foreign_root, NEW_GROUP_ID, "new", at(0));
    assert!(!dest.can_merge(&source));

    // What is deleted here is not added, and then nothing hangs below the foreign root.
    let mut strict = dest.clone();
    strict.record_deletion(foreign_root.uuid(), Some(at(9)));
    assert!(!strict.can_merge(&source));
    strict.record_deletion(NEW_GROUP_ID.uuid(), Some(at(9)));
    assert!(strict.can_merge(&source));
    let before = strict.clone();
    assert_eq!(strict.merge(&source).unwrap().events.len(), 0);
    assert_eq!(strict, before);
}

fn image(db: &Database, entry: EntryId) -> Vec<u8> {
    match db.entry(entry).unwrap().icon {
        Some(Icon::Custom(icon)) => db.custom_icon(icon).unwrap().data.clone(),
        _ => panic!("no custom icon"),
    }
}

/// Merging the same source again changes nothing and reports no event.
fn assert_repeatable(dest: &mut Database, source: &Database) {
    let just_after = dest.clone();
    let log = dest.merge(source).unwrap();
    assert_eq!(log.events.len(), 0);
    assert_eq!(*dest, just_after);
}

/// An identifier already taken by a different image gets a new one, and both images stay.
#[test]
fn an_icon_id_taken_by_another_image_gets_a_new_one() {
    let mut dest = create_test_database();
    let mut source = dest.clone();
    set_icon(&mut dest, ENTRY1_ID, ICON_ID, vec![2]);
    edit_entry(&mut dest, ENTRY2_ID, |e| e.icon = Some(Icon::Custom(ICON_ID)));
    set_icon(&mut source, ENTRY1_ID, ICON_ID, vec![1]);
    set_modified(&mut source, ENTRY1_ID, at(5));
    set_modified(&mut dest, ENTRY2_ID, at(5));

    dest.merge(&source).unwrap();
    assert_ne!(dest.entry(ENTRY1_ID).unwrap().icon, Some(Icon::Custom(ICON_ID)));
    assert_eq!(image(&dest, ENTRY1_ID), vec![1]);
    assert_eq!(dest.entry(ENTRY2_ID).unwrap().icon, Some(Icon::Custom(ICON_ID)));
    assert_eq!(image(&dest, ENTRY2_ID), vec![2]);
    assert_eq!(dest.custom_icon_ids().len(), 2);
    assert_repeatable(&mut dest, &source);
}

/// The same holds of groups, and of entries and groups that are added.
#[test]
fn new_objects_show_the_image_of_their_own_database() {
    let mut dest = create_test_database();
    let mut source = dest.clone();
    set_icon(&mut dest, ENTRY1_ID, ICON_ID, vec![2]);
    set_modified(&mut dest, ENTRY1_ID, at(5));
    add_group(&mut source, ROOT_GROUP_ID, NEW_GROUP_ID, "new", at(1));
    add_entry(&mut source, NEW_GROUP_ID, NEW_ENTRY_ID, "new", at(1));
    set_icon(&mut source, NEW_ENTRY_ID, ICON_ID, vec![1]);
    edit_group(&mut source, NEW_GROUP_ID, |g| g.icon = Some(Icon::Custom(ICON_ID)));
    track_group(&mut source, GROUP2_ID, at(6), |g| g.icon = Some(Icon::Custom(ICON_ID)));

    dest.merge(&source).unwrap();
    let shown = dest.entry(NEW_ENTRY_ID).unwrap().icon;
    assert_eq!(image(&dest, NEW_ENTRY_ID), vec![1]);
    assert_eq!(dest.group(NEW_GROUP_ID).unwrap().icon, shown);
    assert_eq!(dest.group(GROUP2_ID).unwrap().icon, shown);
    assert_eq!(image(&dest, ENTRY1_ID), vec![2]);
    assert_repeatable(&mut dest, &source);
}

/// An image that was replaced under its identifier does not make an untouched entry a conflict.
#[test]
fn a_replaced_image_is_no_conflict() {
    let mut dest = create_test_database();
    let mut source = dest.clone();
    set_icon(&mut dest, ENTRY1_ID, ICON_ID, vec![2]);
    set_icon(&mut source, ENTRY1_ID, ICON_ID, vec![1]);

    let log = dest.merge(&source).unwrap();
    assert_eq!(log.events.len(), 0);
    assert_eq!(image(&dest, ENTRY1_ID), vec![2]);
    assert_repeatable(&mut dest, &source);
}

/// An icon that is shared under another identifier is not brought in again.
#[test]
fn a_shared_icon_stays_shared() {
    let mut dest = create_test_database();
    let mut source = dest.clone();
    set_icon(&mut dest, ENTRY2_ID, OTHER_ICON_ID, vec![1]);
    set_modified(&mut dest, ENTRY2_ID, at(5));
    set_icon(&mut source, ENTRY1_ID, ICON_ID, vec![1]);
    set_modified(&mut source, ENTRY1_ID, at(5));

    dest.merge(&source).unwrap();
    assert_eq!(dest.entry(ENTRY1_ID).unwrap().icon, Some(Icon::Custom(OTHER_ICON_ID)));
    assert_eq!(dest.custom_icon_ids().len(), 1);
    assert_repeatable(&mut dest, &source);
}

/// An updated group is taken over with its tags and its previous place.
#[test]
fn an_updated_group_takes_over_tags() {
    let mut dest = create_test_database();
    let mut source = dest.clone();
    edit_group(&mut dest, GROUP1_ID, |g| g.tags = vec!["old".to_string()]);
    track_group(&mut source, GROUP1_ID, at(1), |g| {
        g.tags = vec!["new".to_string()];
        g.previous_parent_group = Some(GROUP2_ID);
    });

    let log = dest.merge(&source).unwrap();
    assert_eq!(log.events, vec![group_event(GROUP1_ID, MergeEventType::Updated)]);
    let group = dest.group(GROUP1_ID).unwrap();
    assert_eq!(group.tags, vec!["new".to_string()]);
    assert_eq!(group.previous_parent_group, Some(GROUP2_ID));
    assert_eq!(group.times.last_modification, Some(at(1)));
    assert_repeatable(&mut dest, &source);
}

/// The version that is replaced is archived at its place in time.
#[test]
fn a_replaced_version_is_archived_in_order() {
    let mut dest = create_test_database();
    let mut source = dest.clone();
    track_entry(&mut source, ENTRY1_ID, at(1), |e| e.set_unprotected("Title", "v2"));
    track_entry(&mut source, ENTRY1_ID, at(2), |e| e.set_unprotected("Title", "v3"));

    let log = dest.merge(&source).unwrap();
    assert_eq!(log.events, vec![entry_event(ENTRY1_ID, MergeEventType::Updated)]);
    assert_eq!(title(&dest, ENTRY1_ID), "v3");
    let history = dest.entry(ENTRY1_ID).unwrap().history.as_ref().unwrap();
    assert_history_ordered(history);
    let titles: Vec<&str> = history.entries.iter().map(|e| e.get("Title").unwrap()).collect();
    assert_eq!(titles, vec!["v2", "entry1"]);
    assert_repeatable(&mut dest, &source);
}

/// A version that only the destination has goes between those of the source.
#[test]
fn a_version_of_the_destination_goes_between_those_of_the_source() {
    let mut dest = create_test_database();
    let mut source = dest.clone();
    track_entry(&mut source, ENTRY1_ID, at(1), |e| e.set_unprotected("Title", "s1"));
    track_entry(&mut source, ENTRY1_ID, at(3), |e| e.set_unprotected("Title", "s3"));
    track_entry(&mut source, ENTRY1_ID, at(4), |e| e.set_unprotected("Title", "s4"));
    track_entry(&mut dest, ENTRY1_ID, at(2), |e| e.set_unprotected("Title", "d2"));

    dest.merge(&source).unwrap();
    let history = dest.entry(ENTRY1_ID).unwrap().history.as_ref().unwrap();
    assert_history_ordered(history);
    let titles: Vec<&str> = history.entries.iter().map(|e| e.get("Title").unwrap()).collect();
    assert_eq!(titles, vec!["s3", "d2", "s1", "entry1"]);
    assert_repeatable(&mut dest, &source);
}

/// A group that was moved out of a group before that was deleted stays, with its entries.
#[test]
fn a_group_moved_out_of_a_deleted_group_stays() {
    let mut dest = create_test_database();
    let mut source = dest.clone();
    move_group(&mut source, SUBGROUP1_ID, ROOT_GROUP_ID, at(1));
    remove_group(&mut source, GROUP1_ID, at(2));
    // Even if it was changed here meanwhile.
    track_entry(&mut dest, ENTRY2_ID, at(3), |e| e.set_unprotected("Title", "changed"));

    let log = dest.merge(&source).unwrap();
    assert!(log.events.contains(&group_event(GROUP1_ID, MergeEventType::Deleted)));
    assert!(log.events.contains(&group_event(SUBGROUP1_ID, MergeEventType::LocationUpdated)));
    assert!(dest.group(GROUP1_ID).is_none());
    assert_eq!(dest.group(SUBGROUP1_ID).unwrap().parent, Some(ROOT_GROUP_ID));
    assert_eq!(dest.entry(ENTRY2_ID).unwrap().parent, SUBGROUP1_ID);
    assert_eq!(title(&dest, ENTRY2_ID), "changed");
    assert_eq!(dest.deletion(GROUP1_ID.uuid()), Some(Some(at(2))));
    assert_repeatable(&mut dest, &source);
}

/// A deleted subgroup that was given a new entry stays, and so does the group above it.
#[test]
fn a_new_entry_keeps_its_deleted_groups() {
    let mut dest = create_test_database();
    let mut source = dest.clone();
    remove_group(&mut source, GROUP1_ID, at(1));
    add_entry(&mut dest, SUBGROUP1_ID, NEW_ENTRY_ID, "new", at(2));

    let log = dest.merge(&source).unwrap();
    assert_eq!(log.events, vec![entry_event(ENTRY2_ID, MergeEventType::Deleted)]);
    assert!(dest.group(GROUP1_ID).is_some());
    assert!(dest.group(SUBGROUP1_ID).is_some());
    assert!(dest.entry(NEW_ENTRY_ID).is_some());
    assert_eq!(dest.deletion(GROUP1_ID.uuid()), None);
    assert_eq!(dest.deletion(SUBGROUP1_ID.uuid()), None);
    assert_eq!(dest.deletion(NEW_ENTRY_ID.uuid()), None);
    assert_repeatable(&mut dest, &source);
}

/// An entry that the source has stays, although its group here was deleted there.
#[test]
fn an_entry_of_the_source_is_not_lost_with_a_group() {
    let mut dest = create_test_database();
    let mut source = dest.clone();
    move_entry(&mut source, ENTRY2_ID, ROOT_GROUP_ID, at(1));
    remove_group(&mut source, GROUP1_ID, at(2));
    move_entry(&mut dest, ENTRY2_ID, GROUP1_ID, at(3));

    dest.merge(&source).unwrap();
    assert_eq!(dest.entry(ENTRY2_ID).unwrap().parent, GROUP1_ID);
    assert!(dest.group(GROUP1_ID).is_some());
    assert!(dest.group(SUBGROUP1_ID).is_none());
    assert_repeatable(&mut dest, &source);
}

/// An entry that was moved here later and edited there later can be merged twice.
#[test]
fn a_moved_and_edited_entry_can_be_merged_twice() {
    let mut dest = create_test_database();
    let mut source = dest.clone();
    move_entry(&mut dest, ENTRY1_ID, GROUP2_ID, at(2));
    track_entry(&mut source, ENTRY1_ID, at(3), |e| e.set_unprotected("Title", "edited"));

    dest.merge(&source).unwrap();
    assert_eq!(dest.entry(ENTRY1_ID).unwrap().parent, GROUP2_ID);
    assert_eq!(title(&dest, ENTRY1_ID), "edited");
    assert_repeatable(&mut dest, &source);
}

/// Where the destination has some data twice, each copy stays in use.
#[test]
fn data_kept_twice_can_be_merged_twice() {
    let mut dest = create_test_database();
    let first = add_attachment(&mut dest, ENTRY1_ID, "a", Value::unprotected(vec![5]));
    let second = add_attachment(&mut dest, ENTRY2_ID, "b", Value::unprotected(vec![5]));
    assert_ne!(first, second);
    let mut source = dest.clone();
    assert_eq!(dest.merge(&source).unwrap().events.len(), 0);
    assert_repeatable(&mut dest, &source);

    add_entry(&mut source, ROOT_GROUP_ID, NEW_ENTRY_ID, "new", at(1));
    edit_entry(&mut source, NEW_ENTRY_ID, |e| e.attachments.insert("c".to_string(), second));
    dest.merge(&source).unwrap();
    assert_eq!(*dest.entry(ENTRY1_ID).unwrap().attachments.get("a").unwrap(), first);
    assert_eq!(*dest.entry(ENTRY2_ID).unwrap().attachments.get("b").unwrap(), second);
    assert_eq!(*dest.entry(NEW_ENTRY_ID).unwrap().attachments.get("c").unwrap(), second);
    assert_repeatable(&mut dest, &source);
}

/// A deleted group goes with a deleted subgroup, though that was changed in between.
#[test]
fn a_deleted_group_goes_with_its_deleted_subgroup() {
    let mut dest = create_test_database();
    let mut source = dest.clone();
    remove_group(&mut source, SUBGROUP2_ID, at(6));
    remove_group(&mut source, GROUP2_ID, at(2));
    track_group(&mut dest, SUBGROUP2_ID, at(4), |g| g.name = "changed".to_string());

    let log = dest.merge(&source).unwrap();
    assert_eq!(log.events.len(), 2);
    assert!(log.events.contains(&group_event(GROUP2_ID, MergeEventType::Deleted)));
    assert!(log.events.contains(&group_event(SUBGROUP2_ID, MergeEventType::Deleted)));
    assert!(dest.group(GROUP2_ID).is_none());
    assert!(dest.group(SUBGROUP2_ID).is_none());
    assert_eq!(dest.deletion(GROUP2_ID.uuid()), Some(Some(at(2))));
    assert_eq!(dest.deletion(SUBGROUP2_ID.uuid()), Some(Some(at(6))));
    assert_repeatable(&mut dest, &source);
}

/// A subgroup that was changed after its own deletion keeps the group above it.
#[test]
fn a_changed_subgroup_keeps_its_deleted_group() {
    let mut dest = create_test_database();
    let mut source = dest.clone();
    remove_group(&mut source, SUBGROUP2_ID, at(2));
    remove_group(&mut source, GROUP2_ID, at(6));
    track_group(&mut dest, SUBGROUP2_ID, at(4), |g| g.name = "changed".to_string());

    let log = dest.merge(&source).unwrap();
    assert_eq!(log.events.len(), 0);
    assert!(dest.group(GROUP2_ID).is_some());
    assert_eq!(dest.group(SUBGROUP2_ID).unwrap().name, "changed");
    assert_repeatable(&mut dest, &source);
}

/// The root stays, even if another database has its deletion on record.
#[test]
fn the_root_is_never_deleted() {
    let mut dest = create_test_database();
    let mut source = Database::new_with_root_id(GROUP1_ID);
    source.record_deletion(ROOT_GROUP_ID.uuid(), Some(at(9)));
    edit_group(&mut source, GROUP1_ID, |g| g.times.last_modification = Some(NaiveDateTime::epoch()));

    let log = dest.merge(&source).unwrap();
    assert_eq!(log.events.len(), 0);
    assert!(dest.group(ROOT_GROUP_ID).is_some());
    assert_eq!(dest.deletion(ROOT_GROUP_ID.uuid()), None);
    assert_repeatable(&mut dest, &source);
}

/// A new entry without a modification time is taken over as it is, and stays so.
#[test]
fn an_undated_new_entry_can_be_merged_twice() {
    let mut dest = create_test_database();
    let mut source = dest.clone();
    add_entry(&mut source, ROOT_GROUP_ID, NEW_ENTRY_ID, "new", at(1));
    edit_entry(&mut source, NEW_ENTRY_ID, |e| {
        e.times.last_modification = None;
        e.history = None;
    });
    dest.merge(&source).unwrap();
    assert!(dest.entry(NEW_ENTRY_ID).unwrap().history.is_none());
    assert_repeatable(&mut dest, &source);

    // Nor does a history change that is in no order.
    let mut dest = create_test_database();
    edit_entry(&mut source, NEW_ENTRY_ID, |e| {
        let mut older = e.clone();
        older.times.last_modification = Some(at(1));
        let mut newer = e.clone();
        newer.times.last_modification = Some(at(2));
        e.history = Some(History { entries: vec![older, newer] });
    });
    dest.merge(&source).unwrap();
    assert_eq!(dest.entry(NEW_ENTRY_ID).unwrap().history.as_ref().unwrap().entries.len(), 2);
    assert_repeatable(&mut dest, &source);
}

/// An undated version in the source is later than one dated before 1970, but no update twice.
#[test]
fn an_undated_version_is_taken_over_once() {
    let before_1970 = NaiveDateTime::from_timestamp(-5, 0).unwrap();
    let mut dest = create_test_database();
    let mut source = dest.clone();
    edit_group(&mut dest, GROUP1_ID, |g| g.times.last_modification = Some(before_1970));
    set_modified(&mut dest, ENTRY1_ID, before_1970);
    edit_group(&mut source, GROUP1_ID, |g| {
        g.name = "changed".to_string();
        g.times.last_modification = None;
    });
    edit_entry(&mut source, ENTRY1_ID, |e| {
        e.set_unprotected("Title", "changed");
        e.times.last_modification = None;
    });

    let log = dest.merge(&source).unwrap();
    assert_eq!(log.events.len(), 2);
    assert_eq!(dest.group(GROUP1_ID).unwrap().name, "changed");
    assert_eq!(dest.group(GROUP1_ID).unwrap().times.last_modification, Some(before_1970));
    assert_eq!(title(&dest, ENTRY1_ID), "changed");
    assert_eq!(dest.entry(ENTRY1_ID).unwrap().times.last_modification, None);
    assert_repeatable(&mut dest, &source);
}

/// Where everything is dated, the moment of a merge does not matter.
#[test]
fn the_moment_does_not_matter_where_all_is_dated() {
    let dest = create_test_database();
    let mut source = dest.clone();
    track_entry(&mut source, ENTRY1_ID, at(3), |e| e.set_unprotected("Title", "changed"));
    let mut early = dest.clone();
    let mut late = dest.clone();
    early.merge_at(&source, at(1)).unwrap();
    late.merge_at(&source, at(9)).unwrap();
    assert_eq!(early, late);
    assert_eq!(early.merge_at(&source, NaiveDateTime::epoch()).unwrap().events.len(), 0);
    assert_eq!(early, late);
}

/// New entries come first: what they lack is reported before a conflict.
#[test]
fn a_missing_attachment_of_a_new_entry_comes_before_a_conflict() {
    let mut dest = create_test_database();
    let mut source = dest.clone();
    edit_entry(&mut source, ENTRY1_ID, |e| e.set_unprotected("Title", "untracked"));
    let error = dest.merge(&source).unwrap_err();
    assert_eq!(error, MergeError::EntryModificationTimeNotUpdated(ENTRY1_ID));

    let mut dest = create_test_database();
    add_entry(&mut source, ROOT_GROUP_ID, NEW_ENTRY_ID, "", at(1));
    edit_entry(&mut source, NEW_ENTRY_ID, |e| {
        e.attachments.insert("missing.bin".into(), AttachmentId::new(99));
    });
    let error = dest.merge(&source).unwrap_err();
    assert_eq!(error, MergeError::AttachmentNotFound(AttachmentId::new(99)));
}

/// A reference to an attachment that is not there does not come to stand for another one.
#[test]
fn a_dangling_attachment_stays_dangling() {
    let mut dest = create_test_database();
    let gone = AttachmentId::new(0);
    edit_entry(&mut dest, ENTRY1_ID, |e| e.attachments.insert("gone".to_string(), gone));
    let mut source = create_test_database();
    add_entry(&mut source, ROOT_GROUP_ID, NEW_ENTRY_ID, "new", at(1));
    assert_eq!(add_attachment(&mut source, NEW_ENTRY_ID, "a", Value::unprotected(vec![5])), gone);
    // What the source has in place of the reference is older, and not taken over.
    add_attachment(&mut source, ENTRY1_ID, "gone", Value::unprotected(vec![6]));
    set_modified(&mut dest, ENTRY1_ID, at(9));

    dest.merge(&source).unwrap();
    assert_eq!(attached(&dest, NEW_ENTRY_ID, "a").unwrap().get(), &[5]);
    assert_eq!(*dest.entry(ENTRY1_ID).unwrap().attachments.get("gone").unwrap(), gone);
    assert!(dest.attachment(gone).is_none());
    assert_repeatable(&mut dest, &source);
}

/// An icon that the destination shows without having it is taken from the source, or not shown.
#[test]
fn a_dangling_icon_is_found_or_dropped() {
    let mut dest = create_test_database();
    edit_entry(&mut dest, ENTRY1_ID, |e| e.icon = Some(Icon::Custom(ICON_ID)));
    edit_group(&mut dest, GROUP1_ID, |g| g.icon = Some(Icon::Custom(OTHER_ICON_ID)));
    let mut source = dest.clone();
    source.add_custom_icon(ICON_ID, vec![1]);

    dest.merge(&source).unwrap();
    assert_eq!(dest.entry(ENTRY1_ID).unwrap().icon, Some(Icon::Custom(ICON_ID)));
    assert_eq!(image(&dest, ENTRY1_ID), vec![1]);
    assert_eq!(dest.group(GROUP1_ID).unwrap().icon, None);
    assert_repeatable(&mut dest, &source);
}

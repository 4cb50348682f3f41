# keepass

A verified core for KeePass databases: merging two versions of a database, the composite key that
unlocks one, and the timestamps of its XML document.

- `src/db/` holds the database: a tree of groups and entries with icons, attachments and a record
  of deletions. `DatabaseModel` is what the contracts speak of.
- `src/merge/` merges another version of a database into this one. `Database::merge` is the entry
  point. The order in which hash tables are walked and the identifiers that are given out are left
  open, so its contract says that the outcome is the one of *some* walk. The modules whose names
  end in `_laws` prove what holds of every merge. `settled` proves that merging changes nothing
  where the source has nothing new, as with a tidy database and itself, and `again` that merging
  twice in a row is merging once, for the databases that its predicate `repeatable` describes.
- `src/key/` builds the key elements out of a password, a key file and the answer to a challenge.
- `src/format/` turns the `Times` element of the XML document into the times of an object and back.
- `app/` is the unverified surroundings: prompts and files, error messages, and serde.
- `tests/` runs the library.

What is taken on trust is declared next to where it is used: `src/datetime.rs` (chrono),
`src/key/crates.rs` (quick-xml, sha2, base64, hex, zeroize), `src/key/mod.rs` (`std::io::Error`)
and `src/ids.rs` (`String::push`).

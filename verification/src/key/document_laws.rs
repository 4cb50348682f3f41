//! What is found in the pieces of an XML keyfile, and what a key is made of.
use vstd::prelude::*;
use vstd::utf8::encode_utf8;

use crate::key::crates::{document_items, sha256_digest, XmlItemModel};
use crate::key::keyfile::{
    data_path, found, items_read, key_bytes, keyfile_key, last_text, open_tags, stops, version_path,
    Finding,
};
use crate::key::{shown_key, DatabaseKeyModel};

verus! {

/// The start of an element of a given name.
pub open spec fn tag(name: Seq<char>) -> XmlItemModel {
    XmlItemModel::Start(encode_utf8(name))
}

/// Pieces that open and close no element and at which reading does not stop: texts, comments and the
/// like.
pub open spec fn is_filler(items: Seq<XmlItemModel>) -> bool {
    forall|i: int| 0 <= i < items.len() ==> (#[trigger] items[i] is Text || items[i] is Other)
}

/// Reading does not stop at any of the pieces.
pub open spec fn goes_on(items: Seq<XmlItemModel>) -> bool {
    forall|i: int|
        0 <= i < items.len() ==> !(#[trigger] items[i] is Eof) && !(items[i] is Malformed) && !(
        items[i] is Undecodable)
}

/// What is known after some pieces: the open elements, the version and the key data.
spec fn is_state(
    items: Seq<XmlItemModel>,
    tags: Seq<Seq<u8>>,
    version: Option<Seq<char>>,
    value: Option<Seq<char>>,
) -> bool {
    &&& goes_on(items)
    &&& open_tags(items) == tags
    &&& last_text(items, version_path()) == version
    &&& last_text(items, data_path()) == value
}

/// One more piece is read.
proof fn lemma_push(
    items: Seq<XmlItemModel>,
    tags: Seq<Seq<u8>>,
    version: Option<Seq<char>>,
    value: Option<Seq<char>>,
    item: XmlItemModel,
)
    requires
        is_state(items, tags, version, value),
    ensures
        item matches XmlItemModel::Start(name) ==> is_state(items.push(item), tags.push(name), version, value),
        item is End && tags.len() > 0 ==> is_state(items.push(item), tags.drop_last(), version, value),
        item is Other ==> is_state(items.push(item), tags, version, value),
        item is Text && tags.len() != 3 ==> is_state(items.push(item), tags, version, value),
        item matches XmlItemModel::Text(text) ==> (tags == version_path() && tags != data_path() ==> is_state(
            items.push(item),
            tags,
            Some(text),
            value,
        )) && (tags == data_path() && tags != version_path() ==> is_state(
            items.push(item),
            tags,
            version,
            Some(text),
        )),
{
    let more = items.push(item);
    assert(more.drop_last() =~= items);
    assert(more.last() == item);
    assert(version_path().len() == 3 && data_path().len() == 3);
    if !stops(item) {
        assert forall|i: int| 0 <= i < more.len() implies !(#[trigger] more[i] is Eof) && !(more[i] is Malformed)
            && !(more[i] is Undecodable) by {
            if i < items.len() {
                assert(more[i] == items[i]);
            }
        }
    }
}

/// Filler is read.
proof fn lemma_fill(
    items: Seq<XmlItemModel>,
    tags: Seq<Seq<u8>>,
    version: Option<Seq<char>>,
    value: Option<Seq<char>>,
    filler: Seq<XmlItemModel>,
)
    requires
        is_state(items, tags, version, value),
        is_filler(filler),
        tags.len() != 3,
    ensures
        is_state(items + filler, tags, version, value),
    decreases filler.len(),
{
    if filler.len() == 0 {
        assert(items + filler =~= items);
    } else {
        let front = filler.drop_last();
        assert forall|i: int| 0 <= i < front.len() implies (#[trigger] front[i] is Text || front[i] is Other) by {
            assert(front[i] == filler[i]);
        }
        lemma_fill(items, tags, version, value, front);
        assert(filler[filler.len() - 1] == filler.last());
        lemma_push(items + front, tags, version, value, filler.last());
        assert((items + front).push(filler.last()) =~= items + filler);
    }
}

/// Reading stops where the document ends, at a mistake or at a text that cannot be decoded.
proof fn lemma_read(items: Seq<XmlItemModel>, last: XmlItemModel, rest: Seq<XmlItemModel>)
    requires
        goes_on(items),
        stops(last),
    ensures
        items_read(items + seq![last] + rest) == items.len(),
    decreases items.len(),
{
    let all = items + seq![last] + rest;
    if items.len() == 0 {
        assert(all[0] == last);
    } else {
        assert(all[0] == items[0]);
        assert(!stops(items[0]));
        let tail = items.drop_first();
        assert forall|i: int| 0 <= i < tail.len() implies !(#[trigger] tail[i] is Eof) && !(tail[i] is Malformed)
            && !(tail[i] is Undecodable) by {
            assert(tail[i] == items[i + 1]);
        }
        assert(all.drop_first() =~= tail + seq![last] + rest);
        lemma_read(tail, last, rest);
    }
}

/// The names of the elements of a keyfile are told apart.
proof fn lemma_paths()
    ensures
        version_path() == seq![encode_utf8("KeyFile"@), encode_utf8("Meta"@), encode_utf8("Version"@)],
        data_path() == seq![encode_utf8("KeyFile"@), encode_utf8("Key"@), encode_utf8("Data"@)],
        version_path() != data_path(),
        encode_utf8("Data"@) != encode_utf8("Version"@),
{
    reveal_strlit("Meta");
    reveal_strlit("Key");
    reveal_strlit("Data");
    reveal_strlit("Version");
    assert("Meta"@.len() == 4);
    assert("Key"@.len() == 3);
    assert("Data"@.len() == 4);
    assert("Version"@.len() == 7);
    vstd::utf8::encode_utf8_decode_utf8("Meta"@);
    vstd::utf8::encode_utf8_decode_utf8("Key"@);
    vstd::utf8::encode_utf8_decode_utf8("Data"@);
    vstd::utf8::encode_utf8_decode_utf8("Version"@);
    assert(version_path()[1] == encode_utf8("Meta"@));
    assert(data_path()[1] == encode_utf8("Key"@));
}

/// The text in an element, with filler around it, at the end of a path of three elements.
pub open spec fn leaf(
    f: Seq<XmlItemModel>,
    outer: Seq<char>,
    g: Seq<XmlItemModel>,
    inner: Seq<char>,
    text: Seq<char>,
    h: Seq<XmlItemModel>,
) -> Seq<XmlItemModel> {
    f.push(tag(outer)) + g.push(tag(inner)).push(XmlItemModel::Text(text)).push(XmlItemModel::End) + h.push(
        XmlItemModel::End,
    )
}

/// Two elements, one in the other, with a text, are read.
proof fn lemma_leaf(
    items: Seq<XmlItemModel>,
    root: Seq<u8>,
    version: Option<Seq<char>>,
    value: Option<Seq<char>>,
    f: Seq<XmlItemModel>,
    outer: Seq<char>,
    g: Seq<XmlItemModel>,
    inner: Seq<char>,
    text: Seq<char>,
    h: Seq<XmlItemModel>,
)
    requires
        is_state(items, seq![root], version, value),
        is_filler(f),
        is_filler(g),
        is_filler(h),
        seq![root, encode_utf8(outer), encode_utf8(inner)] == version_path() || seq![
            root,
            encode_utf8(outer),
            encode_utf8(inner),
        ] == data_path(),
    ensures
        seq![root, encode_utf8(outer), encode_utf8(inner)] == version_path() ==> is_state(
            items + leaf(f, outer, g, inner, text, h),
            seq![root],
            Some(text),
            value,
        ),
        seq![root, encode_utf8(outer), encode_utf8(inner)] == data_path() ==> is_state(
            items + leaf(f, outer, g, inner, text, h),
            seq![root],
            version,
            Some(text),
        ),
{
    lemma_paths();
    let path = seq![root, encode_utf8(outer), encode_utf8(inner)];
    let new_version = if path == version_path() {
        Some(text)
    } else {
        version
    };
    let new_value = if path == data_path() {
        Some(text)
    } else {
        value
    };
    let t1 = seq![root];
    let t2 = seq![root, encode_utf8(outer)];
    let s1 = items + f;
    lemma_fill(items, t1, version, value, f);
    let s2 = s1.push(tag(outer));
    lemma_push(s1, t1, version, value, tag(outer));
    assert(t1.push(encode_utf8(outer)) =~= t2);
    let s3 = s2 + g;
    lemma_fill(s2, t2, version, value, g);
    let s4 = s3.push(tag(inner));
    lemma_push(s3, t2, version, value, tag(inner));
    assert(t2.push(encode_utf8(inner)) =~= path);
    let s5 = s4.push(XmlItemModel::Text(text));
    lemma_push(s4, path, version, value, XmlItemModel::Text(text));
    let s6 = s5.push(XmlItemModel::End);
    lemma_push(s5, path, new_version, new_value, XmlItemModel::End);
    assert(path.drop_last() =~= t2);
    let s7 = s6 + h;
    lemma_fill(s6, t2, new_version, new_value, h);
    let s8 = s7.push(XmlItemModel::End);
    lemma_push(s7, t2, new_version, new_value, XmlItemModel::End);
    assert(t2.drop_last() =~= t1);
    assert(s8 =~= items + leaf(f, outer, g, inner, text, h));
}

/// In a keyfile the version is the text at KeyFile, Meta, Version, and the key data are the text at
/// KeyFile, Key, Data. Texts in other places, comments and the like do not matter.
pub proof fn version_and_data_are_found(
    f: Seq<Seq<XmlItemModel>>,
    version: Seq<char>,
    value: Seq<char>,
    rest: Seq<XmlItemModel>,
)
    requires
        f.len() == 9,
        forall|i: int| 0 <= i < 9 ==> is_filler(#[trigger] f[i]),
    ensures
        found(
            f[0].push(tag("KeyFile"@)) + leaf(f[1], "Meta"@, f[2], "Version"@, version, f[3]) + leaf(
                f[4],
                "Key"@,
                f[5],
                "Data"@,
                value,
                f[6],
            ) + f[7].push(XmlItemModel::End) + f[8] + seq![XmlItemModel::Eof] + rest,
        ) == (Finding::Key { version: Some(version), value }),
{
    lemma_paths();
    let root = encode_utf8("KeyFile"@);
    let none = Seq::<Seq<u8>>::empty();
    let s0 = Seq::<XmlItemModel>::empty();
    assert(is_state(s0, none, None, None));
    assert(is_filler(f[0]) && is_filler(f[1]) && is_filler(f[2]) && is_filler(f[3]) && is_filler(f[4]));
    assert(is_filler(f[5]) && is_filler(f[6]) && is_filler(f[7]) && is_filler(f[8]));
    lemma_fill(s0, none, None, None, f[0]);
    assert(s0 + f[0] =~= f[0]);
    lemma_push(f[0], none, None, None, tag("KeyFile"@));
    assert(none.push(root) =~= seq![root]);
    let s1 = f[0].push(tag("KeyFile"@));
    lemma_leaf(s1, root, None, None, f[1], "Meta"@, f[2], "Version"@, version, f[3]);
    let s2 = s1 + leaf(f[1], "Meta"@, f[2], "Version"@, version, f[3]);
    lemma_leaf(s2, root, Some(version), None, f[4], "Key"@, f[5], "Data"@, value, f[6]);
    let s3 = s2 + leaf(f[4], "Key"@, f[5], "Data"@, value, f[6]);
    lemma_close(s3, root, Some(version), value, f[7], f[8], rest);
    assert(s3 + f[7].push(XmlItemModel::End) + f[8] + seq![XmlItemModel::Eof] + rest =~= s3 + (f[7].push(
        XmlItemModel::End,
    ) + f[8]) + seq![XmlItemModel::Eof] + rest);
}

/// Where key data stand in a keyfile more than once, the last ones count.
pub proof fn last_data_count(f: Seq<Seq<XmlItemModel>>, first: Seq<char>, second: Seq<char>, rest: Seq<XmlItemModel>)
    requires
        f.len() == 9,
        forall|i: int| 0 <= i < 9 ==> is_filler(#[trigger] f[i]),
    ensures
        found(
            f[0].push(tag("KeyFile"@)) + leaf(f[1], "Key"@, f[2], "Data"@, first, f[3]) + leaf(
                f[4],
                "Key"@,
                f[5],
                "Data"@,
                second,
                f[6],
            ) + f[7].push(XmlItemModel::End) + f[8] + seq![XmlItemModel::Eof] + rest,
        ) == (Finding::Key { version: None, value: second }),
{
    lemma_paths();
    let root = encode_utf8("KeyFile"@);
    let none = Seq::<Seq<u8>>::empty();
    let s0 = Seq::<XmlItemModel>::empty();
    assert(is_state(s0, none, None, None));
    assert(is_filler(f[0]) && is_filler(f[1]) && is_filler(f[2]) && is_filler(f[3]) && is_filler(f[4]));
    assert(is_filler(f[5]) && is_filler(f[6]) && is_filler(f[7]) && is_filler(f[8]));
    lemma_fill(s0, none, None, None, f[0]);
    assert(s0 + f[0] =~= f[0]);
    lemma_push(f[0], none, None, None, tag("KeyFile"@));
    assert(none.push(root) =~= seq![root]);
    let s1 = f[0].push(tag("KeyFile"@));
    lemma_leaf(s1, root, None, None, f[1], "Key"@, f[2], "Data"@, first, f[3]);
    let s2 = s1 + leaf(f[1], "Key"@, f[2], "Data"@, first, f[3]);
    lemma_leaf(s2, root, None, Some(first), f[4], "Key"@, f[5], "Data"@, second, f[6]);
    let s3 = s2 + leaf(f[4], "Key"@, f[5], "Data"@, second, f[6]);
    lemma_close(s3, root, None, second, f[7], f[8], rest);
    assert(s3 + f[7].push(XmlItemModel::End) + f[8] + seq![XmlItemModel::Eof] + rest =~= s3 + (f[7].push(
        XmlItemModel::End,
    ) + f[8]) + seq![XmlItemModel::Eof] + rest);
}

/// A keyfile without a version has none, and its key data are found all the same.
pub proof fn data_are_found_without_version(f: Seq<Seq<XmlItemModel>>, value: Seq<char>, rest: Seq<XmlItemModel>)
    requires
        f.len() == 6,
        forall|i: int| 0 <= i < 6 ==> is_filler(#[trigger] f[i]),
    ensures
        found(
            f[0].push(tag("KeyFile"@)) + leaf(f[1], "Key"@, f[2], "Data"@, value, f[3]) + f[4].push(XmlItemModel::End)
                + f[5] + seq![XmlItemModel::Eof] + rest,
        ) == (Finding::Key { version: None, value }),
{
    lemma_paths();
    let root = encode_utf8("KeyFile"@);
    let none = Seq::<Seq<u8>>::empty();
    let s0 = Seq::<XmlItemModel>::empty();
    assert(is_state(s0, none, None, None));
    assert(is_filler(f[0]) && is_filler(f[1]) && is_filler(f[2]) && is_filler(f[3]) && is_filler(f[4]));
    assert(is_filler(f[5]));
    lemma_fill(s0, none, None, None, f[0]);
    assert(s0 + f[0] =~= f[0]);
    lemma_push(f[0], none, None, None, tag("KeyFile"@));
    assert(none.push(root) =~= seq![root]);
    let s1 = f[0].push(tag("KeyFile"@));
    lemma_leaf(s1, root, None, None, f[1], "Key"@, f[2], "Data"@, value, f[3]);
    let s2 = s1 + leaf(f[1], "Key"@, f[2], "Data"@, value, f[3]);
    lemma_close(s2, root, None, value, f[4], f[5], rest);
    assert(s2 + f[4].push(XmlItemModel::End) + f[5] + seq![XmlItemModel::Eof] + rest =~= s2 + (f[4].push(
        XmlItemModel::End,
    ) + f[5]) + seq![XmlItemModel::Eof] + rest);
}

/// The document ends.
proof fn lemma_close(
    items: Seq<XmlItemModel>,
    root: Seq<u8>,
    version: Option<Seq<char>>,
    value: Seq<char>,
    f: Seq<XmlItemModel>,
    g: Seq<XmlItemModel>,
    rest: Seq<XmlItemModel>,
)
    requires
        is_state(items, seq![root], version, Some(value)),
        is_filler(f),
        is_filler(g),
    ensures
        found(items + (f.push(XmlItemModel::End) + g) + seq![XmlItemModel::Eof] + rest) == (Finding::Key {
            version,
            value,
        }),
{
    let none = Seq::<Seq<u8>>::empty();
    lemma_fill(items, seq![root], version, Some(value), f);
    let s1 = (items + f).push(XmlItemModel::End);
    lemma_push(items + f, seq![root], version, Some(value), XmlItemModel::End);
    assert(seq![root].drop_last() =~= none);
    lemma_fill(s1, none, version, Some(value), g);
    let all = items + (f.push(XmlItemModel::End) + g);
    assert(s1 + g =~= all);
    lemma_read(all, XmlItemModel::Eof, rest);
    let whole = all + seq![XmlItemModel::Eof] + rest;
    assert(whole[all.len() as int] == XmlItemModel::Eof);
    assert(whole.take(all.len() as int) =~= all);
}

/// A document that is not well formed, or in which a text cannot be decoded, is no keyfile, whatever
/// stands before and after that.
pub proof fn mistakes_are_found(items: Seq<XmlItemModel>, rest: Seq<XmlItemModel>)
    requires
        goes_on(items),
    ensures
        found(items + seq![XmlItemModel::Malformed] + rest) is Xml,
        found(items + seq![XmlItemModel::Undecodable] + rest) is Encoding,
{
    let n = items.len() as int;
    lemma_read(items, XmlItemModel::Malformed, rest);
    lemma_read(items, XmlItemModel::Undecodable, rest);
    assert((items + seq![XmlItemModel::Malformed] + rest)[n] is Malformed);
    assert((items + seq![XmlItemModel::Undecodable] + rest)[n] is Undecodable);
}

/// No open element has a name that none of the pieces has.
proof fn lemma_never_open(items: Seq<XmlItemModel>, name: Seq<u8>)
    requires
        forall|i: int| 0 <= i < items.len() ==> #[trigger] items[i] != XmlItemModel::Start(name),
    ensures
        !open_tags(items).contains(name),
    decreases items.len(),
{
    if items.len() > 0 {
        let front = items.drop_last();
        assert forall|i: int| 0 <= i < front.len() implies #[trigger] front[i] != XmlItemModel::Start(name) by {
            assert(front[i] == items[i]);
        }
        lemma_never_open(front, name);
        let tags = open_tags(front);
        assert(items[items.len() - 1] == items.last());
        match items.last() {
            XmlItemModel::Start(other) => {
                if tags.push(other).contains(name) {
                    let k = choose|k: int| 0 <= k < tags.push(other).len() && tags.push(other)[k] == name;
                    if k < tags.len() {
                        assert(tags[k] == name);
                    }
                }
            },
            XmlItemModel::End => {
                if tags.len() > 0 && tags.drop_last().contains(name) {
                    let k = choose|k: int| 0 <= k < tags.drop_last().len() && tags.drop_last()[k] == name;
                    assert(tags[k] == name);
                }
            },
            _ => {},
        }
    }
}

/// No key data are found where no element has their name.
proof fn lemma_no_data(items: Seq<XmlItemModel>)
    requires
        forall|i: int| 0 <= i < items.len() ==> #[trigger] items[i] != tag("Data"@),
    ensures
        last_text(items, data_path()) is None,
    decreases items.len(),
{
    if items.len() > 0 {
        let front = items.drop_last();
        assert forall|i: int| 0 <= i < front.len() implies #[trigger] front[i] != tag("Data"@) by {
            assert(front[i] == items[i]);
        }
        lemma_no_data(front);
        lemma_never_open(front, encode_utf8("Data"@));
        lemma_paths();
        if open_tags(front) == data_path() {
            assert(open_tags(front)[2] == encode_utf8("Data"@));
        }
    }
}

/// A file without an element for key data is no XML keyfile: if it is 32 bytes long, it is the key, and
/// otherwise its digest is.
pub proof fn other_files_are_key_or_digest(file: Seq<u8>)
    requires
        forall|i: int| 0 <= i < document_items(file).len() ==> #[trigger] document_items(file)[i] != tag("Data"@),
    ensures
        !(found(document_items(file)) is Key),
        file.len() == 32 ==> keyfile_key(file) == file,
        file.len() != 32 ==> keyfile_key(file) == sha256_digest(file),
{
    let items = document_items(file);
    lemma_read_within(items);
    let n = items_read(items) as int;
    assert forall|i: int| 0 <= i < items.take(n).len() implies #[trigger] items.take(n)[i] != tag("Data"@) by {
        assert(items.take(n)[i] == items[i]);
    }
    lemma_no_data(items.take(n));
}

/// No more pieces are read than there are.
proof fn lemma_read_within(items: Seq<XmlItemModel>)
    ensures
        items_read(items) <= items.len(),
    decreases items.len(),
{
    if items.len() > 0 {
        lemma_read_within(items.drop_first());
    }
}

/// The key in a file in which key data are found is that for which they stand.
pub proof fn xml_files_hold_their_key(file: Seq<u8>, version: Option<Seq<char>>, value: Seq<char>)
    requires
        found(document_items(file)) == (Finding::Key { version, value }),
    ensures
        keyfile_key(file) == key_bytes(version, value),
{
}

/// A file that is no XML keyfile, for whatever reason, is the key if it is 32 bytes long, and otherwise
/// its digest is.
pub proof fn broken_files_are_key_or_digest(file: Seq<u8>)
    requires
        !(found(document_items(file)) is Key),
    ensures
        file.len() == 32 ==> keyfile_key(file) == file,
        file.len() != 32 ==> keyfile_key(file) == sha256_digest(file),
{
}

/// What a key is made of: the digest of the password, the key in the keyfile and the digest of the
/// answer to the challenge, as far as they are there, one after the other, and nothing else.
pub proof fn elements_are_the_components(key: DatabaseKeyModel)
    ensures
        ({
            let elements = key.elements();
            let own = key.own_elements();
            let passwords: int = if key.password_hash is Some {
                1
            } else {
                0
            };
            let files: int = if key.keyfile is Some {
                1
            } else {
                0
            };
            let answers: int = if key.challenge_response_result is Some {
                1
            } else {
                0
            };
            &&& own.len() == passwords + files
            &&& elements.len() == passwords + files + answers
            &&& forall|i: int| 0 <= i < own.len() ==> #[trigger] own[i] == elements[i]
            &&& key.password_hash is Some ==> elements[0] == key.password_hash->0
            &&& key.keyfile is Some ==> elements[passwords] == keyfile_key(key.keyfile->0)
            &&& key.challenge_response_result is Some ==> elements[passwords + files] == sha256_digest(
                key.challenge_response_result->0,
            )
        }),
{
}

/// What is shown of a key says whether it has a password and whether it has a keyfile, and nothing else.
pub proof fn key_shows_which_components_it_has()
    ensures
        shown_key(true, true) == "DatabaseKey { has_password: true, has_keyfile: true, .. }"@,
        shown_key(true, false) == "DatabaseKey { has_password: true, has_keyfile: false, .. }"@,
        shown_key(false, true) == "DatabaseKey { has_password: false, has_keyfile: true, .. }"@,
        shown_key(false, false) == "DatabaseKey { has_password: false, has_keyfile: false, .. }"@,
{
    reveal_strlit("DatabaseKey { has_password: ");
    reveal_strlit(", has_keyfile: ");
    reveal_strlit(", .. }");
    reveal_strlit("true");
    reveal_strlit("false");
    reveal_strlit("DatabaseKey { has_password: true, has_keyfile: true, .. }");
    reveal_strlit("DatabaseKey { has_password: true, has_keyfile: false, .. }");
    reveal_strlit("DatabaseKey { has_password: false, has_keyfile: true, .. }");
    reveal_strlit("DatabaseKey { has_password: false, has_keyfile: false, .. }");
    assert(shown_key(true, true) =~= "DatabaseKey { has_password: true, has_keyfile: true, .. }"@);
    assert(shown_key(true, false) =~= "DatabaseKey { has_password: true, has_keyfile: false, .. }"@);
    assert(shown_key(false, true) =~= "DatabaseKey { has_password: false, has_keyfile: true, .. }"@);
    assert(shown_key(false, false) =~= "DatabaseKey { has_password: false, has_keyfile: false, .. }"@);
}

} // verus!

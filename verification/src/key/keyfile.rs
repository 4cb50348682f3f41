//! The key in a keyfile.
use quick_xml::encoding::EncodingError;
use vstd::prelude::*;
use vstd::string::StrSliceExecFns;
use vstd::utf8::encode_utf8;

use crate::datum::Datum;
use crate::key::crates::{
    base64_decode, base64_decoded, document_items, hex_bytes, hex_decode, is_hex, pending_items,
    read_item, sha256, sha256_digest, xml_reader, XmlItem, XmlItemModel,
};

verus! {

/// One component of a key.
pub type KeyElement = Vec<u8>;

/// Why no key was found in an XML document.
#[derive(Debug)]
pub enum ParseXmlKeyFileError {
    /// There is no key data element.
    EmptyKey,
    /// A text is not in the encoding of the document.
    Encoding(EncodingError),
    /// The document is not well formed.
    Xml(quick_xml::Error),
}

/// The key data of an XML keyfile as they are written there, and the version of the format.
#[derive(Debug)]
pub struct KeyText {
    pub version: Option<String>,
    pub value: String,
}

/// What there is to find in the pieces of an XML keyfile.
pub enum Finding {
    Key { version: Option<Seq<char>>, value: Seq<char> },
    EmptyKey,
    Encoding,
    Xml,
}

/// Reading stops at a piece: the document ends there, or there is a mistake.
pub open spec fn stops(item: XmlItemModel) -> bool {
    item is Eof || item is Malformed || item is Undecodable
}

/// How many pieces are read before reading stops.
pub open spec fn items_read(items: Seq<XmlItemModel>) -> nat
    decreases items.len(),
{
    if items.len() == 0 || stops(items[0]) {
        0
    } else {
        1 + items_read(items.drop_first())
    }
}

/// The names of the elements that are open after some pieces of a document.
pub open spec fn open_tags(items: Seq<XmlItemModel>) -> Seq<Seq<u8>>
    decreases items.len(),
{
    if items.len() == 0 {
        Seq::empty()
    } else {
        let tags = open_tags(items.drop_last());
        match items.last() {
            XmlItemModel::Start(name) => tags.push(name),
            XmlItemModel::End => if tags.len() > 0 {
                tags.drop_last()
            } else {
                tags
            },
            _ => tags,
        }
    }
}

/// The last text in an element that is reached along a path.
pub open spec fn last_text(items: Seq<XmlItemModel>, path: Seq<Seq<u8>>) -> Option<Seq<char>>
    decreases items.len(),
{
    if items.len() == 0 {
        None
    } else {
        match items.last() {
            XmlItemModel::Text(text) => if open_tags(items.drop_last()) == path {
                Some(text)
            } else {
                last_text(items.drop_last(), path)
            },
            _ => last_text(items.drop_last(), path),
        }
    }
}

/// Where a keyfile has the version of its format.
pub open spec fn version_path() -> Seq<Seq<u8>> {
    seq![encode_utf8("KeyFile"@), encode_utf8("Meta"@), encode_utf8("Version"@)]
}

/// Where a keyfile has its key data.
pub open spec fn data_path() -> Seq<Seq<u8>> {
    seq![encode_utf8("KeyFile"@), encode_utf8("Key"@), encode_utf8("Data"@)]
}

/// What there is to find in the pieces of an XML keyfile.
pub open spec fn found(items: Seq<XmlItemModel>) -> Finding {
    let n = items_read(items) as int;
    if n < items.len() && items[n] is Undecodable {
        Finding::Encoding
    } else if n < items.len() && items[n] is Malformed {
        Finding::Xml
    } else {
        match last_text(items.take(n), data_path()) {
            Some(value) => Finding::Key { version: last_text(items.take(n), version_path()), value },
            None => Finding::EmptyKey,
        }
    }
}

/// Reading stops at the first piece at which it can.
proof fn lemma_items_read(items: Seq<XmlItemModel>, n: int)
    requires
        0 <= n <= items.len(),
        forall|k: int| 0 <= k < n ==> !stops(#[trigger] items[k]),
        n < items.len() ==> stops(items[n]),
    ensures
        items_read(items) == n,
    decreases items.len(),
{
    if n > 0 {
        let rest = items.drop_first();
        assert(!stops(items[0]));
        assert forall|k: int| 0 <= k < n - 1 implies !stops(#[trigger] rest[k]) by {
            assert(rest[k] == items[k + 1]);
        }
        lemma_items_read(rest, n - 1);
    }
}

/// Whether two sequences of bytes are the same.
fn same_bytes(a: &[u8], b: &[u8]) -> (same: bool)
    ensures
        same == (a@ == b@),
{
    if a.len() != b.len() {
        return false;
    }
    let mut i: usize = 0;
    while i < a.len()
        invariant
            i <= a@.len() == b@.len(),
            forall|k: int| 0 <= k < i ==> #[trigger] a@[k] == b@[k],
        decreases a@.len() - i,
    {
        if a[i] != b[i] {
            return false;
        }
        i = i + 1;
    }
    assert(a@ =~= b@);
    true
}

/// Whether the open elements are those of a path of three.
fn is_path(tags: &Vec<Vec<u8>>, first: &str, second: &str, third: &str) -> (is: bool)
    ensures
        is == (tags.deep_view() == seq![encode_utf8(first@), encode_utf8(second@), encode_utf8(third@)]),
{
    let ghost path = seq![encode_utf8(first@), encode_utf8(second@), encode_utf8(third@)];
    let ghost names = tags.deep_view();
    assert(path.len() == 3 && names.len() == tags@.len());
    if tags.len() != 3 {
        return false;
    }
    assert forall|i: int| 0 <= i < 3 implies #[trigger] names[i] == tags@[i]@ by {
        assert(tags@[i].deep_view() =~= tags@[i]@);
    }
    let same = same_bytes(tags[0].as_slice(), first.as_bytes()) && same_bytes(tags[1].as_slice(), second.as_bytes())
        && same_bytes(tags[2].as_slice(), third.as_bytes());
    proof {
        if same {
            assert(names =~= path);
        } else {
            assert(names[0] != path[0] || names[1] != path[1] || names[2] != path[2]);
        }
    }
    same
}

/// Finds the key data in the pieces of an XML keyfile.
#[verifier::loop_isolation(false)]
pub fn key_from_items(items: Vec<XmlItem>) -> (result: Result<KeyText, ParseXmlKeyFileError>)
    ensures
        match result {
            Ok(text) => found(items.deep_view()) == (Finding::Key {
                version: text.version.deep_view(),
                value: text.value@,
            }),
            Err(ParseXmlKeyFileError::EmptyKey) => found(items.deep_view()) is EmptyKey,
            Err(ParseXmlKeyFileError::Encoding(_)) => found(items.deep_view()) is Encoding,
            Err(ParseXmlKeyFileError::Xml(_)) => found(items.deep_view()) is Xml,
        },
{
    let ghost all = items.deep_view();
    let ghost list = items@;
    let mut items: Vec<XmlItem> = items;
    // The pieces, last one first, so that they can be taken one by one.
    let mut rest: Vec<XmlItem> = Vec::new();
    while items.len() > 0
        invariant
            items@ =~= list.take(items@.len() as int),
            items@.len() + rest@.len() == list.len(),
            forall|k: int| 0 <= k < rest@.len() ==> #[trigger] rest@[k] == list[list.len() - 1 - k],
        decreases items@.len(),
    {
        match items.pop() {
            Some(item) => rest.push(item),
            None => {},
        }
    }
    let mut tags: Vec<Vec<u8>> = Vec::new();
    let mut version: Option<String> = None;
    let mut value: Option<String> = None;
    proof {
        assert(tags.deep_view() =~= Seq::<Seq<u8>>::empty());
        assert(all.take(0) =~= Seq::<XmlItemModel>::empty());
    }
    while rest.len() > 0
        invariant
            all.len() == list.len(),
            forall|k: int| 0 <= k < list.len() ==> #[trigger] all[k] == list[k].deep_view(),
            rest@.len() <= list.len(),
            forall|k: int| 0 <= k < rest@.len() ==> #[trigger] rest@[k] == list[list.len() - 1 - k],
            forall|k: int| 0 <= k < list.len() - rest@.len() ==> !stops(#[trigger] all[k]),
            tags.deep_view() == open_tags(all.take(list.len() - rest@.len())),
            version.deep_view() == last_text(all.take(list.len() - rest@.len()), version_path()),
            value.deep_view() == last_text(all.take(list.len() - rest@.len()), data_path()),
        decreases rest@.len(),
    {
        let ghost n = list.len() - rest@.len();
        let ghost before = tags.deep_view();
        let ghost old_tags = tags@;
        proof {
            assert(all.take(n + 1).drop_last() =~= all.take(n));
            assert(all.take(n + 1).last() == all[n]);
            assert(rest@[rest@.len() - 1] == list[n]);
        }
        match rest.pop() {
            Some(XmlItem::Eof) => {
                proof {
                    lemma_items_read(all, n);
                }
                return match value {
                    Some(value) => Ok(KeyText { version, value }),
                    None => Err(ParseXmlKeyFileError::EmptyKey),
                };
            },
            Some(XmlItem::Malformed(error)) => {
                proof {
                    lemma_items_read(all, n);
                }
                return Err(ParseXmlKeyFileError::Xml(error));
            },
            Some(XmlItem::Undecodable(error)) => {
                proof {
                    lemma_items_read(all, n);
                }
                return Err(ParseXmlKeyFileError::Encoding(error));
            },
            Some(XmlItem::Start(name)) => {
                assert(name.deep_view() =~= name@);
                tags.push(name);
                assert(tags.deep_view() =~= before.push(name@));
            },
            Some(XmlItem::End) => {
                let _ = tags.pop();
                proof {
                    if old_tags.len() > 0 {
                        assert(tags.deep_view() =~= before.drop_last());
                    } else {
                        assert(tags.deep_view() =~= before);
                    }
                }
            },
            Some(XmlItem::Text(text)) => {
                let is_version = is_path(&tags, "KeyFile", "Meta", "Version");
                let is_data = is_path(&tags, "KeyFile", "Key", "Data");
                proof {
                    lemma_paths_differ();
                }
                if is_version {
                    version = Some(text);
                } else if is_data {
                    value = Some(text);
                }
            },
            Some(XmlItem::Other) => {},
            None => {},
        }
    }
    proof {
        lemma_items_read(all, all.len() as int);
        assert(all.take(all.len() as int) =~= all);
    }
    match value {
        Some(value) => Ok(KeyText { version, value }),
        None => Err(ParseXmlKeyFileError::EmptyKey),
    }
}

/// The version and the key data stand in different places.
proof fn lemma_paths_differ()
    ensures
        version_path() != data_path(),
{
    reveal_strlit("Meta");
    reveal_strlit("Key");
    assert("Meta"@.len() == 4);
    assert("Key"@.len() == 3);
    vstd::utf8::encode_utf8_decode_utf8("Meta"@);
    vstd::utf8::encode_utf8_decode_utf8("Key"@);
    assert(version_path()[1] == encode_utf8("Meta"@));
    assert(data_path()[1] == encode_utf8("Key"@));
}

/// White space, as Unicode has it.
pub open spec fn is_white(c: char) -> bool {
    let n = c as u32;
    9 <= n <= 13 || n == 32 || n == 0x85 || n == 0xA0 || n == 0x1680 || 0x2000 <= n <= 0x200A || n == 0x2028 || n
        == 0x2029 || n == 0x202F || n == 0x205F || n == 0x3000
}

/// A text without the white space at its start.
pub open spec fn trimmed_start(text: Seq<char>) -> Seq<char>
    decreases text.len(),
{
    if text.len() > 0 && is_white(text[0]) {
        trimmed_start(text.drop_first())
    } else {
        text
    }
}

/// A text without the white space at its end.
pub open spec fn trimmed_end(text: Seq<char>) -> Seq<char>
    decreases text.len(),
{
    if text.len() > 0 && is_white(text.last()) {
        trimmed_end(text.drop_last())
    } else {
        text
    }
}

/// The characters that separate groups of digits in a keyfile: space, line feed, tab and carriage
/// return.
pub open spec fn is_separator(c: char) -> bool {
    c == ' ' || c == '\n' || c == '\t' || c == '\r'
}

/// The digits of a key, without the white space around and the separators between them.
pub open spec fn compacted(text: Seq<char>) -> Seq<char> {
    trimmed_end(trimmed_start(text)).filter(|c: char| !is_separator(c))
}

/// The key for which the key data of an XML keyfile stand.
pub open spec fn key_bytes(version: Option<Seq<char>>, value: Seq<char>) -> Seq<u8> {
    if version == Some("2.0"@) {
        if is_hex(compacted(value)) {
            hex_bytes(compacted(value))
        } else {
            encode_utf8(value)
        }
    } else {
        match base64_decoded(encode_utf8(value)) {
            Some(bytes) => bytes,
            None => encode_utf8(value),
        }
    }
}

/// The key in an XML keyfile, if the file is one.
pub open spec fn xml_key(items: Seq<XmlItemModel>) -> Option<Seq<u8>> {
    match found(items) {
        Finding::Key { version, value } => Some(key_bytes(version, value)),
        _ => None,
    }
}

/// The key in a keyfile that is not an XML keyfile: the file itself if it has the length of a key,
/// and otherwise its digest.
pub open spec fn plain_key(buffer: Seq<u8>) -> Seq<u8> {
    if buffer.len() == 32 {
        buffer
    } else {
        sha256_digest(buffer)
    }
}

/// The key in a keyfile.
pub open spec fn keyfile_key(buffer: Seq<u8>) -> Seq<u8> {
    match xml_key(document_items(buffer)) {
        Some(key) => key,
        None => plain_key(buffer),
    }
}

/// A text without the white space at its start is what follows that white space.
proof fn lemma_trimmed_start(text: Seq<char>, n: int)
    requires
        0 <= n <= text.len(),
        forall|k: int| 0 <= k < n ==> is_white(#[trigger] text[k]),
        n < text.len() ==> !is_white(text[n]),
    ensures
        trimmed_start(text) == text.skip(n),
    decreases text.len(),
{
    if n > 0 {
        let rest = text.drop_first();
        assert(is_white(text[0]));
        assert forall|k: int| 0 <= k < n - 1 implies is_white(#[trigger] rest[k]) by {
            assert(rest[k] == text[k + 1]);
        }
        lemma_trimmed_start(rest, n - 1);
        assert(rest.skip(n - 1) =~= text.skip(n));
    } else {
        assert(text.skip(0) =~= text);
    }
}

/// A text without the white space at its end is what precedes that white space.
proof fn lemma_trimmed_end(text: Seq<char>, n: int)
    requires
        0 <= n <= text.len(),
        forall|k: int| n <= k < text.len() ==> is_white(#[trigger] text[k]),
        n > 0 ==> !is_white(text[n - 1]),
    ensures
        trimmed_end(text) == text.take(n),
    decreases text.len(),
{
    if n < text.len() {
        let rest = text.drop_last();
        assert(is_white(text[text.len() - 1]));
        assert forall|k: int| n <= k < rest.len() implies is_white(#[trigger] rest[k]) by {
            assert(rest[k] == text[k]);
        }
        lemma_trimmed_end(rest, n);
        assert(rest.take(n) =~= text.take(n));
    } else {
        assert(text.take(n) =~= text);
    }
}

/// Whether a character is white space, as Unicode has it.
fn is_white_space(c: char) -> (white: bool)
    ensures
        white == is_white(c),
{
    let n: u32 = c as u32;
    (9 <= n && n <= 13) || n == 32 || n == 0x85 || n == 0xA0 || n == 0x1680 || (0x2000 <= n && n <= 0x200A) || n
        == 0x2028 || n == 0x2029 || n == 0x202F || n == 0x205F || n == 0x3000
}

/// The characters of a text.
fn characters(text: &str) -> (chars: Vec<char>)
    ensures
        chars@ == text@,
{
    let mut chars: Vec<char> = Vec::new();
    let walk = text.chars();
    for c in it: walk
        invariant
            chars@ =~= it.seq().take(it.index()),
            it.seq() == text@,
            it.index() == it.seq().len() ==> chars@ =~= it.seq(),
    {
        chars.push(c);
    }
    chars
}

/// The digits of a key, without the white space around and the separators between them.
pub fn compact(text: &str) -> (compact: String)
    ensures
        compact@ == compacted(text@),
{
    let chars: Vec<char> = characters(text);
    let ghost all = text@;
    let mut start: usize = 0;
    while start < chars.len() && is_white_space(chars[start])
        invariant
            chars@ == all,
            start <= chars@.len(),
            forall|k: int| 0 <= k < start ==> is_white(#[trigger] all[k]),
        decreases chars@.len() - start,
    {
        start = start + 1;
    }
    let mut end: usize = chars.len();
    while end > start && is_white_space(chars[end - 1])
        invariant
            chars@ == all,
            start <= end <= chars@.len(),
            forall|k: int| end <= k < all.len() ==> is_white(#[trigger] all[k]),
        decreases end,
    {
        end = end - 1;
    }
    let ghost core = all.subrange(start as int, end as int);
    let ghost keep = |c: char| !is_separator(c);
    proof {
        lemma_trimmed_start(all, start as int);
        let rest = all.skip(start as int);
        assert forall|k: int| end - start <= k < rest.len() implies is_white(#[trigger] rest[k]) by {
            assert(rest[k] == all[k + start]);
        }
        lemma_trimmed_end(rest, end - start);
        assert(rest.take(end - start) =~= core);
        assert(core.take(0) =~= Seq::<char>::empty());
    }
    let mut compact: String = String::new();
    let mut i: usize = start;
    assert(core.take(0).filter(keep) =~= Seq::<char>::empty()) by {
        reveal(Seq::filter);
    }
    while i < end
        invariant
            chars@ == all,
            start <= i <= end <= chars@.len(),
            core == all.subrange(start as int, end as int),
            keep == (|c: char| !is_separator(c)),
            compact@ == core.take(i - start).filter(keep),
        decreases end - i,
    {
        let c: char = chars[i];
        proof {
            reveal(Seq::filter);
            assert(core.take(i - start + 1).drop_last() =~= core.take(i - start));
            assert(core.take(i - start + 1).last() == c);
        }
        if c != ' ' && c != '\n' && c != '\t' && c != '\r' {
            compact.push(c);
        }
        i = i + 1;
    }
    assert(core.take(core.len() as int) =~= core);
    compact
}

/// The bytes of a text.
fn text_bytes(text: &str) -> (bytes: Vec<u8>)
    ensures
        bytes@ == encode_utf8(text@),
{
    text.as_bytes_vec()
}

/// The key for which the key data of an XML keyfile stand: hexadecimal digits from version 2.0 on,
/// Base64 before, and the data themselves where they are neither.
pub fn decode_key(text: &KeyText) -> (key: KeyElement)
    ensures
        key@ == key_bytes(text.version.deep_view(), text.value@),
{
    let is_second: bool = match &text.version {
        Some(version) => version.same(&"2.0".to_owned()),
        None => false,
    };
    let bytes: Vec<u8> = text_bytes(text.value.as_str());
    let decoded: Option<Vec<u8>> = if is_second {
        let digits: String = compact(text.value.as_str());
        hex_decode(digits.as_str())
    } else {
        base64_decode(bytes.as_slice())
    };
    match decoded {
        Some(key) => key,
        None => bytes,
    }
}

/// The pieces of an XML document.
fn read_items(xml: &[u8]) -> (items: Vec<XmlItem>)
    ensures
        items.deep_view() == document_items(xml@),
{
    let mut reader = xml_reader(xml);
    let ghost all = document_items(xml@);
    let ghost mut pending = pending_items(reader);
    let mut items: Vec<XmlItem> = Vec::new();
    let mut more: bool = true;
    assert(items.deep_view() + all =~= all);
    while more
        invariant
            items.deep_view() + pending == all,
            more ==> pending == pending_items(reader) && pending.len() > 0,
            !more ==> pending.len() == 0,
        decreases pending.len(),
    {
        let ghost before = items.deep_view();
        let ghost left = pending;
        let item = read_item(&mut reader);
        let ghost model = item.deep_view();
        more = match &item {
            XmlItem::Eof => false,
            XmlItem::Malformed(_) => false,
            _ => true,
        };
        items.push(item);
        proof {
            pending = left.drop_first();
            assert(items.deep_view() =~= before.push(model));
            assert(items.deep_view() + pending =~= before + left);
        }
    }
    assert(items.deep_view() + pending =~= items.deep_view());
    items
}

/// The key in an XML keyfile.
pub fn parse_xml_keyfile(xml: &[u8]) -> (result: Result<KeyElement, ParseXmlKeyFileError>)
    ensures
        match result {
            Ok(key) => xml_key(document_items(xml@)) == Some(key@),
            Err(ParseXmlKeyFileError::EmptyKey) => found(document_items(xml@)) is EmptyKey,
            Err(ParseXmlKeyFileError::Encoding(_)) => found(document_items(xml@)) is Encoding,
            Err(ParseXmlKeyFileError::Xml(_)) => found(document_items(xml@)) is Xml,
        },
{
    match key_from_items(read_items(xml)) {
        Ok(text) => Ok(decode_key(&text)),
        Err(error) => Err(error),
    }
}

/// The key in a keyfile that is not an XML keyfile: the file itself if it has the length of a key,
/// and otherwise its digest.
pub fn hash_keyfile(buffer: &[u8]) -> (key: KeyElement)
    ensures
        key@ == plain_key(buffer@),
{
    if buffer.len() == 32 {
        vstd::slice::slice_to_vec(buffer)
    } else {
        sha256(buffer)
    }
}

} // verus!

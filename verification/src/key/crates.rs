//! The hash functions, decoders and the XML reader on which keys rest.
use base64::Engine as _;
use quick_xml::encoding::EncodingError;
use quick_xml::events::Event;
use quick_xml::reader::Reader;
use sha2::Digest as _;
use vstd::prelude::*;
use zeroize::Zeroize as _;

verus! {

/// `quick_xml::reader::Reader`: where in a document the reading stands.
#[verifier::external_type_specification]
#[verifier::external_body]
#[verifier::reject_recursive_types(R)]
pub struct ExReader<R>(quick_xml::reader::Reader<R>);

/// `quick_xml::encoding::EncodingError`: a text is not in the encoding of its document.
#[verifier::external_type_specification]
#[verifier::external_body]
pub struct ExEncodingError(quick_xml::encoding::EncodingError);

/// `quick_xml::Error`: a document is not well formed.
#[verifier::external_type_specification]
#[verifier::external_body]
pub struct ExXmlError(quick_xml::Error);

/// One piece of an XML document.
#[derive(Debug)]
pub enum XmlItem {
    /// The start of an element, with its name.
    Start(Vec<u8>),
    /// The end of an element.
    End,
    /// A text between tags.
    Text(String),
    /// A text that is not in the encoding of the document.
    Undecodable(EncodingError),
    /// Anything else.
    Other,
    /// The end of the document.
    Eof,
    /// The document is not well formed from here on.
    Malformed(quick_xml::Error),
}

/// The content of a piece of an XML document.
pub enum XmlItemModel {
    Start(Seq<u8>),
    End,
    Text(Seq<char>),
    Undecodable,
    Other,
    Eof,
    Malformed,
}

impl DeepView for XmlItem {
    type V = XmlItemModel;

    open spec fn deep_view(&self) -> XmlItemModel {
        match self {
            XmlItem::Start(name) => XmlItemModel::Start(name@),
            XmlItem::End => XmlItemModel::End,
            XmlItem::Text(text) => XmlItemModel::Text(text@),
            XmlItem::Undecodable(_) => XmlItemModel::Undecodable,
            XmlItem::Other => XmlItemModel::Other,
            XmlItem::Eof => XmlItemModel::Eof,
            XmlItem::Malformed(_) => XmlItemModel::Malformed,
        }
    }
}

impl XmlItemModel {
    /// Reading a document ends with this piece.
    pub open spec fn is_last(self) -> bool {
        self is Eof || self is Malformed
    }
}

/// The pieces of a document, up to its end or to the first place where it is not well formed.
pub uninterp spec fn document_items(xml: Seq<u8>) -> Seq<XmlItemModel>;

/// The pieces that a reader delivers from where it stands, up to and including the first end of
/// the document or the first place where it is not well formed.
pub uninterp spec fn pending_items(reader: Reader<&[u8]>) -> Seq<XmlItemModel>;

/// Starts to read a document: `quick_xml::reader::Reader::from_reader`. What it delivers is a
/// function of the document, and it delivers something: at least the end.
#[verifier::external_body]
pub(crate) fn xml_reader(xml: &[u8]) -> (reader: Reader<&[u8]>)
    ensures
        pending_items(reader) == document_items(xml@),
        pending_items(reader).len() > 0,
{
    Reader::from_reader(xml)
}

/// Reads on in a document: `quick_xml::reader::Reader::read_event_into`, with a text decoded by
/// `BytesText::decode`. The reader delivers one piece after the other, and an end of the document
/// or an error comes after every other piece. What a reader delivers after an end or an error is
/// not stated.
#[verifier::external_body]
pub(crate) fn read_item(reader: &mut Reader<&[u8]>) -> (item: XmlItem)
    requires
        pending_items(*old(reader)).len() > 0,
    ensures
        item.deep_view() == pending_items(*old(reader))[0],
        !item.deep_view().is_last() ==> pending_items(*final(reader)) == pending_items(*old(reader)).drop_first()
            && pending_items(*final(reader)).len() > 0,
        item.deep_view().is_last() ==> pending_items(*old(reader)).len() == 1,
{
    let mut buf = Vec::new();
    match reader.read_event_into(&mut buf) {
        Ok(Event::Eof) => XmlItem::Eof,
        Ok(Event::Start(e)) => XmlItem::Start(e.name().as_ref().to_vec()),
        Ok(Event::End(_)) => XmlItem::End,
        Ok(Event::Text(e)) => match e.decode() {
            Ok(text) => XmlItem::Text(text.into_owned()),
            Err(error) => XmlItem::Undecodable(error),
        },
        Ok(_) => XmlItem::Other,
        Err(error) => XmlItem::Malformed(error),
    }
}

/// The SHA-256 digest of a sequence of bytes.
pub uninterp spec fn sha256_digest(data: Seq<u8>) -> Seq<u8>;

/// Computes a SHA-256 digest with `sha2::Sha256::digest`. The digest is a function of the data and
/// 32 bytes long.
#[verifier::external_body]
pub(crate) fn sha256(data: &[u8]) -> (digest: Vec<u8>)
    ensures
        digest@ == sha256_digest(data@),
        digest@.len() == 32,
{
    sha2::Sha256::digest(data).to_vec()
}

/// What a text in the standard Base64 alphabet, with padding, stands for, if it is one.
pub uninterp spec fn base64_decoded(text: Seq<u8>) -> Option<Seq<u8>>;

/// Decodes Base64 with the engine `base64::engine::general_purpose::STANDARD`. Whether that
/// succeeds, and with which bytes, is a function of the text.
#[verifier::external_body]
pub(crate) fn base64_decode(text: &[u8]) -> (bytes: Option<Vec<u8>>)
    ensures
        match bytes {
            Some(b) => base64_decoded(text@) == Some(b@),
            None => base64_decoded(text@) is None,
        },
{
    base64::engine::general_purpose::STANDARD.decode(text).ok()
}

/// The value of a hexadecimal digit.
pub open spec fn hex_value(c: char) -> Option<int> {
    let n = c as u32 as int;
    if 48 <= n <= 57 {
        Some(n - 48)
    } else if 65 <= n <= 70 {
        Some(n - 65 + 10)
    } else if 97 <= n <= 102 {
        Some(n - 97 + 10)
    } else {
        None
    }
}

/// A text of pairs of hexadecimal digits.
pub open spec fn is_hex(text: Seq<char>) -> bool {
    text.len() % 2 == 0 && forall|i: int| 0 <= i < text.len() ==> hex_value(#[trigger] text[i]) is Some
}

/// The bytes for which pairs of hexadecimal digits stand.
pub open spec fn hex_bytes(text: Seq<char>) -> Seq<u8> {
    Seq::new(text.len() / 2, |i: int| (16 * hex_value(text[2 * i])->0 + hex_value(text[2 * i + 1])->0) as u8)
}

/// Decodes hexadecimal digits with `hex::decode`, which takes them in either case, in pairs, and
/// nothing else.
#[verifier::external_body]
pub(crate) fn hex_decode(text: &str) -> (bytes: Option<Vec<u8>>)
    ensures
        match bytes {
            Some(b) => is_hex(text@) && b@ == hex_bytes(text@),
            None => !is_hex(text@),
        },
{
    hex::decode(text).ok()
}

/// Overwrites bytes in memory and drops them, with `zeroize::Zeroize::zeroize` for `Option` and
/// `Vec`. What is left is `None`; that the memory was overwritten is not stated.
#[verifier::external_body]
pub(crate) fn wipe_bytes(bytes: &mut Option<Vec<u8>>)
    ensures
        *final(bytes) == None::<Vec<u8>>,
{
    bytes.zeroize();
}

/// Overwrites a text in memory and empties it, with `zeroize::Zeroize::zeroize` for `String`. That
/// the memory was overwritten is not stated.
#[verifier::external_body]
pub(crate) fn wipe_text(text: &mut String)
    ensures
        final(text)@ == Seq::<char>::empty(),
{
    text.zeroize();
}

} // verus!

//! The key of a database.
use base64::Engine as _;
use keepass::key::crates::XmlItem;
use keepass::key::keyfile::{compact, decode_key, key_from_items, parse_xml_keyfile, KeyText, ParseXmlKeyFileError};
use keepass::key::{parse_keyfile, ChallengeResponseKey, ChallengeResponseKeyError, DatabaseKey, DatabaseKeyError};
use sha2::Digest as _;

fn digest(data: &[u8]) -> Vec<u8> {
    sha2::Sha256::digest(data).to_vec()
}

#[test]
fn test_key() -> Result<(), DatabaseKeyError> {
    let ke = DatabaseKey::new().with_password("asdf").get_key_elements()?;
    assert_eq!(ke.len(), 1);

    let ke = DatabaseKey::new()
        .with_keyfile("bare-key-file".as_bytes().to_vec())
        .get_key_elements()?;
    assert_eq!(ke.len(), 1);

    let ke = DatabaseKey::new()
        .with_keyfile("0123456789ABCDEF0123456789ABCDEF".as_bytes().to_vec())
        .get_key_elements()?;
    assert_eq!(ke.len(), 1);

    let ke = DatabaseKey::new()
        .with_password("asdf")
        .with_keyfile("bare-key-file".as_bytes().to_vec())
        .get_key_elements()?;
    assert_eq!(ke.len(), 2);

    let ke = DatabaseKey::new()
        .with_keyfile(
            "<KeyFile><Key><Data>0!23456789ABCDEF0123456789ABCDEF</Data></Key></KeyFile>".as_bytes().to_vec(),
        )
        .get_key_elements()?;
    assert_eq!(ke.len(), 1);

    let ke = DatabaseKey::new()
        .with_keyfile(
            "<KeyFile><Key><Data>NXyYiJMHg3ls+eBmjbAjWec9lcOToJiofbhNiFMTJMw=</Data></Key></KeyFile>"
                .as_bytes()
                .to_vec(),
        )
        .get_key_elements()?;
    assert_eq!(ke.len(), 1);

    let xml_keyfile_v2 = r###"
            <?xml version="1.0" encoding="utf-8"?>
            <KeyFile>
                <Meta>
                    <Version>2.0</Version>
                </Meta>
                <Key>
                    <Data Hash="A65F0C2D">
                        36057B1C 35037FD9 62257893 C0A22403
                        EE3F8FBB 504D9981 08B821CB 00D28F89
                    </Data>
                </Key>
            </KeyFile>
        "###;
    let ke = DatabaseKey::new()
        .with_keyfile(xml_keyfile_v2.trim().as_bytes().to_vec())
        .get_key_elements()?;
    assert_eq!(ke.len(), 1);

    // other XML files will just be hashed as a "bare" keyfile
    let ke = DatabaseKey::new()
        .with_keyfile("<Not><A><KeyFile></KeyFile></A></Not>".as_bytes().to_vec())
        .get_key_elements()?;

    assert_eq!(ke.len(), 1);

    assert!(DatabaseKey::default().get_key_elements().is_err());

    Ok(())
}

/// The password is a credential the user probably reuses; the hash is
/// not. Keeping the plaintext for the life of an unlocked database made
/// every memory dump a password disclosure rather than a brute-force
/// problem, and nothing needed it: KDBX only ever uses the hash.
#[test]
fn a_password_is_reduced_to_its_hash_and_never_kept() {
    let key = DatabaseKey::new().with_password("correct horse battery staple");

    let rendered = key.debug_text();
    assert!(!rendered.contains("correct horse battery staple"));
    assert!(rendered.contains("has_password: true"));

    let elements = key.get_key_elements().expect("one element");
    assert_eq!(elements.len(), 1);
    assert_eq!(
        elements[0],
        digest(b"correct horse battery staple"),
        "the element is exactly what the format asks for"
    );
}

/// The digest of a password is the SHA-256 of its UTF-8 bytes.
#[test]
fn the_digest_is_sha256() {
    let elements = DatabaseKey::new().with_password("abc").get_key_elements().unwrap();
    assert_eq!(
        elements[0],
        vec![
            0xba, 0x78, 0x16, 0xbf, 0x8f, 0x01, 0xcf, 0xea, 0x41, 0x41, 0x40, 0xde, 0x5d, 0xae, 0x22, 0x23, 0xb0,
            0x03, 0x61, 0xa3, 0x96, 0x17, 0x7a, 0x9c, 0xb4, 0x10, 0xff, 0x61, 0xf2, 0x00, 0x15, 0xad
        ]
    );
}

/// What is shown of a key says which components it has.
#[test]
fn a_key_shows_only_which_components_it_has() {
    assert_eq!(DatabaseKey::new().debug_text(), "DatabaseKey { has_password: false, has_keyfile: false, .. }");
    assert_eq!(
        DatabaseKey::new().with_keyfile(vec![1]).debug_text(),
        "DatabaseKey { has_password: false, has_keyfile: true, .. }"
    );
}

/// The components come in a fixed order, whatever the order in which they were given.
#[test]
fn components_come_in_a_fixed_order() {
    let challenge = ChallengeResponseKey::LocalChallenge("secret".to_string());
    let key = DatabaseKey::new()
        .with_challenge_response_key(challenge.clone())
        .with_keyfile(b"file".to_vec())
        .with_password("word")
        .with_response(Ok(vec![1, 2, 3]))
        .unwrap();
    let elements = key.get_key_elements().unwrap();
    assert_eq!(elements, vec![digest(b"word"), digest(b"file"), digest(&[1, 2, 3])]);
    let other = DatabaseKey::new()
        .with_password("word")
        .with_keyfile(b"file".to_vec())
        .with_challenge_response_key(challenge)
        .with_response(Ok(vec![1, 2, 3]))
        .unwrap();
    assert!(key == other);
}

/// A key without password and keyfile is refused, also with a challenge.
#[test]
fn a_challenge_alone_is_no_key() {
    let key = DatabaseKey::new();
    assert!(key.is_empty());
    assert!(matches!(key.get_key_elements(), Err(DatabaseKeyError::EmptyKey)));

    let key = key.with_challenge_response_key(ChallengeResponseKey::LocalChallenge("s".to_string()));
    assert!(!key.is_empty());
    assert!(matches!(key.get_key_elements(), Err(DatabaseKeyError::EmptyKey)));

    let key = key.with_password("word");
    assert!(matches!(
        key.get_key_elements(),
        Err(DatabaseKeyError::ChallengeResponse(ChallengeResponseKeyError::NotPerformed))
    ));
}

/// The challenge is put with the secret and the seed, and the answer or the failure is kept.
#[test]
fn a_challenge_is_performed() {
    let key = DatabaseKey::new()
        .with_password("word")
        .with_challenge_response_key(ChallengeResponseKey::LocalChallenge("s".to_string()));
    let answered = key
        .clone()
        .perform_challenge(&[7, 8], |secret, seed| {
            assert!(*secret == ChallengeResponseKey::LocalChallenge("s".to_string()));
            Ok(seed.to_vec())
        })
        .unwrap();
    assert_eq!(answered.get_key_elements().unwrap(), vec![digest(b"word"), digest(&[7, 8])]);

    let failed = key.perform_challenge(&[7, 8], |_, _| Err(ChallengeResponseKeyError::Failed("unplugged".to_string())));
    match failed {
        Err(DatabaseKeyError::ChallengeResponse(ChallengeResponseKeyError::Failed(message))) => {
            assert_eq!(message, "unplugged");
        }
        _ => panic!("the failure is handed on"),
    }

    // Without a challenge nobody is asked.
    let plain = DatabaseKey::new().with_password("word");
    let same = plain.clone().perform_challenge(&[7, 8], |_, _| panic!("nobody is asked")).unwrap();
    assert!(same == plain);
}

/// Nothing is left of a key that was wiped.
#[test]
fn a_wiped_key_is_empty() {
    let mut key = DatabaseKey::new()
        .with_password("word")
        .with_keyfile(vec![1, 2, 3])
        .with_challenge_response_key(ChallengeResponseKey::LocalChallenge("s".to_string()))
        .with_response(Ok(vec![4]))
        .unwrap();
    key.zeroize();
    assert!(key == DatabaseKey::new());
    assert!(key.is_empty());
}

/// A file of 32 bytes is the key itself; any other file is hashed.
#[test]
fn plain_keyfiles() {
    let file = b"0123456789ABCDEF0123456789ABCDEF";
    assert_eq!(parse_keyfile(file).unwrap(), file.to_vec());
    assert_eq!(parse_keyfile(b"bare-key-file").unwrap(), digest(b"bare-key-file"));
    assert_eq!(parse_keyfile(b"").unwrap(), digest(b""));
    let no_key = b"<Not><A><KeyFile></KeyFile></A></Not>";
    assert_eq!(parse_keyfile(no_key).unwrap(), digest(no_key));
}

/// Before version 2.0 the key is in Base64, and it is taken as it is where it is not.
#[test]
fn keyfiles_in_base64() {
    let key = parse_keyfile(b"<KeyFile><Key><Data>NXyYiJMHg3ls+eBmjbAjWec9lcOToJiofbhNiFMTJMw=</Data></Key></KeyFile>");
    let expected = base64::engine::general_purpose::STANDARD
        .decode("NXyYiJMHg3ls+eBmjbAjWec9lcOToJiofbhNiFMTJMw=")
        .unwrap();
    assert_eq!(expected.len(), 32);
    assert_eq!(key.unwrap(), expected);

    let raw = "0!23456789ABCDEF0123456789ABCDEF";
    let key = parse_keyfile(b"<KeyFile><Key><Data>0!23456789ABCDEF0123456789ABCDEF</Data></Key></KeyFile>");
    assert_eq!(key.unwrap(), raw.as_bytes().to_vec());

    let key = parse_keyfile(b"<KeyFile><Meta><Version>1.00</Version></Meta><Key><Data>AQID</Data></Key></KeyFile>");
    assert_eq!(key.unwrap(), vec![1, 2, 3]);
}

/// From version 2.0 on the key is in hexadecimal digits, and it is taken as it is where it is not.
#[test]
fn keyfiles_in_hexadecimal() {
    let key = parse_keyfile(
        b"<KeyFile><Meta><Version>2.0</Version></Meta><Key><Data Hash=\"A65F0C2D\">\n\t36057B1c 35037FD9\r\n</Data></Key></KeyFile>",
    );
    assert_eq!(key.unwrap(), vec![0x36, 0x05, 0x7b, 0x1c, 0x35, 0x03, 0x7f, 0xd9]);

    let odd = parse_keyfile(b"<KeyFile><Meta><Version>2.0</Version></Meta><Key><Data>123</Data></Key></KeyFile>");
    assert_eq!(odd.unwrap(), b"123".to_vec());
    let other = parse_keyfile(b"<KeyFile><Meta><Version>2.0</Version></Meta><Key><Data>AQID xyz</Data></Key></KeyFile>");
    assert_eq!(other.unwrap(), b"AQID xyz".to_vec());
}

/// The digits may be surrounded by any white space, but separated only by some.
#[test]
fn digits_are_compacted() {
    assert_eq!(compact("\u{a0}\u{2003} 12 34\n56\t78\r \u{3000}"), "12345678");
    assert_eq!(compact("12\u{a0}34"), "12\u{a0}34");
    assert_eq!(compact(" \n "), "");
}

/// What stands in the key data decides, and the version decides how it is read.
#[test]
fn key_data_are_decoded_by_version() {
    let value = "4142".to_string();
    assert_eq!(decode_key(&KeyText { version: Some("2.0".to_string()), value: value.clone() }), b"AB".to_vec());
    let decoded = base64::engine::general_purpose::STANDARD.decode("4142").unwrap();
    assert_eq!(decode_key(&KeyText { version: Some("1.0".to_string()), value: value.clone() }), decoded);
    assert_eq!(decode_key(&KeyText { version: None, value }), decoded);
}

/// Each way in which a document can be no keyfile is told apart.
#[test]
fn documents_that_are_no_keyfiles() {
    assert!(matches!(parse_xml_keyfile(b"bare-key-file"), Err(ParseXmlKeyFileError::EmptyKey)));
    assert!(matches!(parse_xml_keyfile(b""), Err(ParseXmlKeyFileError::EmptyKey)));
    assert!(matches!(parse_xml_keyfile(b"<KeyFile></KeyFile>"), Err(ParseXmlKeyFileError::EmptyKey)));
    assert!(matches!(parse_xml_keyfile(b"<KeyFile></Key>"), Err(ParseXmlKeyFileError::Xml(_))));
    assert!(matches!(
        parse_xml_keyfile(b"<KeyFile><Key><Data>\xff\xfe</Data></Key></KeyFile>"),
        Err(ParseXmlKeyFileError::Encoding(_))
    ));
}

fn start(name: &str) -> XmlItem {
    XmlItem::Start(name.as_bytes().to_vec())
}

fn text(text: &str) -> XmlItem {
    XmlItem::Text(text.to_string())
}

/// The last text in the right place is the one that counts; what follows the end does not.
#[test]
fn the_last_text_in_place_counts() {
    let items = vec![
        text("before"),
        start("KeyFile"),
        start("Meta"),
        start("Version"),
        text("1.0"),
        XmlItem::End,
        XmlItem::End,
        start("Key"),
        text("beside"),
        start("Data"),
        text("first"),
        XmlItem::Other,
        text("second"),
        start("Inner"),
        text("inside"),
        XmlItem::End,
        XmlItem::End,
        XmlItem::End,
        XmlItem::End,
        XmlItem::End,
        XmlItem::Eof,
        start("KeyFile"),
        start("Key"),
        start("Data"),
        text("after"),
    ];
    let found = key_from_items(items).unwrap();
    assert_eq!(found.version, Some("1.0".to_string()));
    assert_eq!(found.value, "second");
}

/// Without a text in the right place there is no key.
#[test]
fn no_text_in_place_is_no_key() {
    let items = vec![start("KeyFile"), start("Data"), start("Key"), text("swapped"), XmlItem::Eof];
    assert!(matches!(key_from_items(items), Err(ParseXmlKeyFileError::EmptyKey)));
    assert!(matches!(key_from_items(Vec::new()), Err(ParseXmlKeyFileError::EmptyKey)));
}

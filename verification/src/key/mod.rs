//! The key of a database: a password, a keyfile, an answer to a challenge, or several of these.
pub mod crates;
pub mod digit_laws;
pub mod document_laws;
pub mod keyfile;

use vstd::prelude::*;
use vstd::string::StringExecFns;
use vstd::utf8::encode_utf8;

use crate::datum::Datum;
use crate::key::crates::{sha256, sha256_digest, wipe_bytes, wipe_text};
use crate::key::keyfile::{hash_keyfile, keyfile_key, parse_xml_keyfile, KeyElement};

verus! {

/// The components of a key.
pub type KeyElements = Vec<KeyElement>;

/// `std::io::Error`: something could not be read.
#[verifier::external_type_specification]
#[verifier::external_body]
pub struct ExIoError(std::io::Error);

/// Why a challenge was not answered.
#[derive(Debug)]
pub enum ChallengeResponseKeyError {
    /// The challenge was not put yet.
    NotPerformed,
    /// Whoever was to answer failed, with this message.
    Failed(String),
}

/// Why there is no key.
#[derive(Debug)]
pub enum DatabaseKeyError {
    /// The key contains no components.
    EmptyKey,
    /// The key does not open the database.
    IncorrectKey,
    /// The keyfile could not be read.
    Io(std::io::Error),
    /// The keyfile is not well-formed XML.
    Xml(quick_xml::Error),
    /// The keyfile has no format that is known.
    InvalidKeyFile,
    /// A challenge was not answered.
    ChallengeResponse(ChallengeResponseKeyError),
}

/// The secret with which a challenge is answered.
#[derive(PartialEq, Eq)]
pub enum ChallengeResponseKey {
    /// A secret that is held here.
    LocalChallenge(String),
}

/// The secret with which a challenge is answered.
pub enum ChallengeResponseKeyModel {
    LocalChallenge(Seq<char>),
}

impl DeepView for ChallengeResponseKey {
    type V = ChallengeResponseKeyModel;

    open spec fn deep_view(&self) -> ChallengeResponseKeyModel {
        match self {
            ChallengeResponseKey::LocalChallenge(secret) => ChallengeResponseKeyModel::LocalChallenge(secret@),
        }
    }
}

/// A key, which may consist of a password, a keyfile and the answer to a challenge.
///
/// The password is not kept. Only its digest is ever used as a component of the key, so that is
/// what is stored.
#[derive(PartialEq)]
pub struct DatabaseKey {
    password_hash: Option<KeyElement>,
    keyfile: Option<Vec<u8>>,
    challenge_response_key: Option<ChallengeResponseKey>,
    challenge_response_result: Option<KeyElement>,
}

/// What a key consists of.
pub struct DatabaseKeyModel {
    pub password_hash: Option<Seq<u8>>,
    pub keyfile: Option<Seq<u8>>,
    pub challenge_response_key: Option<ChallengeResponseKeyModel>,
    pub challenge_response_result: Option<Seq<u8>>,
}

/// The bytes that may be there.
pub open spec fn bytes_of(bytes: Option<Vec<u8>>) -> Option<Seq<u8>> {
    match bytes {
        Some(b) => Some(b@),
        None => None,
    }
}

impl View for DatabaseKey {
    type V = DatabaseKeyModel;

    closed spec fn view(&self) -> DatabaseKeyModel {
        DatabaseKeyModel {
            password_hash: bytes_of(self.password_hash),
            keyfile: bytes_of(self.keyfile),
            challenge_response_key: self.challenge_response_key.deep_view(),
            challenge_response_result: bytes_of(self.challenge_response_result),
        }
    }
}

impl DatabaseKeyModel {
    /// A key without components.
    pub open spec fn empty() -> Self {
        DatabaseKeyModel {
            password_hash: None,
            keyfile: None,
            challenge_response_key: None,
            challenge_response_result: None,
        }
    }

    /// The components that come from the password and the keyfile, in this order.
    pub open spec fn own_elements(self) -> Seq<Seq<u8>> {
        (match self.password_hash {
            Some(hash) => seq![hash],
            None => Seq::empty(),
        }) + (match self.keyfile {
            Some(file) => seq![keyfile_key(file)],
            None => Seq::empty(),
        })
    }

    /// All components of the key; the answer to the challenge comes last.
    pub open spec fn elements(self) -> Seq<Seq<u8>> {
        self.own_elements() + (match self.challenge_response_result {
            Some(response) => seq![sha256_digest(response)],
            None => Seq::empty(),
        })
    }
}

impl Clone for ChallengeResponseKey {
    fn clone(&self) -> (copy: Self)
        ensures
            copy.deep_view() == self.deep_view(),
    {
        match self {
            ChallengeResponseKey::LocalChallenge(secret) => ChallengeResponseKey::LocalChallenge(secret.duplicate()),
        }
    }
}

/// A copy of bytes that may be there.
fn copy_bytes(bytes: &Option<Vec<u8>>) -> (copy: Option<Vec<u8>>)
    ensures
        bytes_of(copy) == bytes_of(*bytes),
{
    match bytes {
        Some(b) => {
            let copy: Vec<u8> = b.duplicate();
            assert(copy@ =~= copy.deep_view() && b@ =~= b.deep_view());
            Some(copy)
        },
        None => None,
    }
}

impl Clone for DatabaseKey {
    fn clone(&self) -> (copy: Self)
        ensures
            copy@ == self@,
    {
        DatabaseKey {
            password_hash: copy_bytes(&self.password_hash),
            keyfile: copy_bytes(&self.keyfile),
            challenge_response_key: match &self.challenge_response_key {
                Some(key) => Some(key.clone()),
                None => None,
            },
            challenge_response_result: copy_bytes(&self.challenge_response_result),
        }
    }
}

/// The key in a keyfile.
///
/// A file that is an XML keyfile holds its key as text. Of any other file, one of 32 bytes is the
/// key itself, and otherwise the key is the digest of the file.
pub fn parse_keyfile(buffer: &[u8]) -> (result: Result<KeyElement, DatabaseKeyError>)
    ensures
        result matches Ok(key) && key@ == keyfile_key(buffer@),
{
    match parse_xml_keyfile(buffer) {
        Ok(key) => Ok(key),
        Err(_) => Ok(hash_keyfile(buffer)),
    }
}

impl Default for DatabaseKey {
    fn default() -> (key: Self)
        ensures
            key@ == DatabaseKeyModel::empty(),
    {
        DatabaseKey {
            password_hash: None,
            keyfile: None,
            challenge_response_key: None,
            challenge_response_result: None,
        }
    }
}

impl DatabaseKey {
    /// A key without components.
    pub fn new() -> (key: Self)
        ensures
            key@ == DatabaseKeyModel::empty(),
    {
        Default::default()
    }

    /// The key with a password as a component. Of the password only the digest is kept.
    pub fn with_password(self, password: &str) -> (key: Self)
        ensures
            key@ == (DatabaseKeyModel {
                password_hash: Some(sha256_digest(encode_utf8(password@))),
                ..self@
            }),
    {
        let mut key: DatabaseKey = self;
        key.password_hash = Some(sha256(password.as_bytes()));
        key
    }

    /// The key with what was read from a keyfile as a component.
    pub fn with_keyfile(self, keyfile: Vec<u8>) -> (key: Self)
        ensures
            key@ == (DatabaseKeyModel { keyfile: Some(keyfile@), ..self@ }),
    {
        let mut key: DatabaseKey = self;
        key.keyfile = Some(keyfile);
        key
    }

    /// The key with a challenge to be answered.
    pub fn with_challenge_response_key(self, challenge_response_key: ChallengeResponseKey) -> (key: Self)
        ensures
            key@ == (DatabaseKeyModel {
                challenge_response_key: Some(challenge_response_key.deep_view()),
                ..self@
            }),
    {
        let mut key: DatabaseKey = self;
        key.challenge_response_key = Some(challenge_response_key);
        key
    }

    /// The key with the answer to its challenge. Without a challenge nothing changes. A key whose
    /// challenge failed is wiped.
    pub fn with_response(self, response: Result<KeyElement, ChallengeResponseKeyError>) -> (result: Result<
        Self,
        DatabaseKeyError,
    >)
        ensures
            match result {
                Ok(key) => match response {
                    Ok(answer) => key@ == (if self@.challenge_response_key is Some {
                        DatabaseKeyModel { challenge_response_result: Some(answer@), ..self@ }
                    } else {
                        self@
                    }),
                    Err(_) => self@.challenge_response_key is None && key@ == self@,
                },
                Err(error) => self@.challenge_response_key is Some && response is Err && error
                    == DatabaseKeyError::ChallengeResponse(response->Err_0),
            },
    {
        let mut key: DatabaseKey = self;
        if key.challenge_response_key.is_some() {
            match response {
                Ok(answer) => {
                    key.challenge_response_result = Some(answer);
                },
                Err(error) => {
                    key.zeroize();
                    return Err(DatabaseKeyError::ChallengeResponse(error));
                },
            }
        }
        Ok(key)
    }

    /// Puts the challenge to whoever answers it, and keeps the answer. Without a challenge nothing
    /// is asked and nothing changes.
    pub fn perform_challenge<F>(self, kdf_seed: &[u8], respond: F) -> (result: Result<Self, DatabaseKeyError>) where
        F: FnOnce(&ChallengeResponseKey, &[u8]) -> Result<KeyElement, ChallengeResponseKeyError>,

        requires
            forall|key: &ChallengeResponseKey|
                self@.challenge_response_key == Some(key.deep_view()) ==> call_requires(respond, (key, kdf_seed)),
        ensures
            match self@.challenge_response_key {
                Some(asked) => exists|
                    key: &ChallengeResponseKey,
                    response: Result<KeyElement, ChallengeResponseKeyError>,
                |
                    {
                        &&& key.deep_view() == asked
                        &&& #[trigger] call_ensures(respond, (key, kdf_seed), response)
                        &&& match response {
                            Ok(answer) => result matches Ok(key) && key@ == (DatabaseKeyModel {
                                challenge_response_result: Some(answer@),
                                ..self@
                            }),
                            Err(error) => result == Err::<Self, DatabaseKeyError>(
                                DatabaseKeyError::ChallengeResponse(error),
                            ),
                        }
                    },
                None => result matches Ok(key) && key@ == self@,
            },
    {
        match &self.challenge_response_key {
            Some(key) => {
                let response = respond(key, kdf_seed);
                self.with_response(response)
            },
            None => Ok(self),
        }
    }

    /// The components of the key: the digest of the password, the key in the keyfile and the digest
    /// of the answer to the challenge, as far as they are there, in this order.
    pub fn get_key_elements(&self) -> (result: Result<KeyElements, DatabaseKeyError>)
        ensures
            match result {
                Ok(elements) => {
                    &&& elements.deep_view() == self@.elements()
                    &&& self@.own_elements().len() > 0
                    &&& self@.challenge_response_key is Some ==> self@.challenge_response_result is Some
                },
                Err(DatabaseKeyError::EmptyKey) => self@.own_elements().len() == 0,
                Err(error) => {
                    &&& error == DatabaseKeyError::ChallengeResponse(ChallengeResponseKeyError::NotPerformed)
                    &&& self@.own_elements().len() > 0
                    &&& self@.challenge_response_key is Some
                    &&& self@.challenge_response_result is None
                },
            },
    {
        let mut elements: KeyElements = Vec::new();
        match &self.password_hash {
            Some(hash) => {
                elements.push(hash.duplicate());
            },
            None => {},
        }
        proof {
            assert(elements.deep_view() =~= match self@.password_hash {
                Some(hash) => seq![hash],
                None => Seq::empty(),
            }) by {
                if self.password_hash is Some {
                    assert(elements@[0].deep_view() =~= self.password_hash->0.deep_view());
                    assert(self.password_hash->0.deep_view() =~= self.password_hash->0@);
                }
            }
        }
        let ghost before = elements.deep_view();
        match &self.keyfile {
            Some(file) => {
                let key: KeyElement = match parse_keyfile(file.as_slice()) {
                    Ok(key) => key,
                    Err(error) => {
                        return Err(error);
                    },
                };
                assert(key.deep_view() =~= key@);
                elements.push(key);
                assert(elements.deep_view() =~= before.push(key@));
            },
            None => {},
        }
        assert(elements.deep_view() =~= self@.own_elements());
        if elements.len() == 0 {
            return Err(DatabaseKeyError::EmptyKey);
        }
        match &self.challenge_response_result {
            Some(response) => {
                let digest: KeyElement = sha256(response.as_slice());
                assert(digest.deep_view() =~= digest@);
                let ghost own = elements.deep_view();
                elements.push(digest);
                assert(elements.deep_view() =~= own.push(digest@));
            },
            None => {
                if self.challenge_response_key.is_some() {
                    return Err(
                        DatabaseKeyError::ChallengeResponse(ChallengeResponseKeyError::NotPerformed),
                    );
                }
            },
        }
        assert(elements.deep_view() =~= self@.elements());
        Ok(elements)
    }

    /// Whether the key has no components and no challenge to be answered.
    pub fn is_empty(&self) -> (empty: bool)
        ensures
            empty == (self@.password_hash is None && self@.keyfile is None && self@.challenge_response_key is None),
    {
        self.password_hash.is_none() && self.keyfile.is_none() && self.challenge_response_key.is_none()
    }

    /// Overwrites all components of the key and drops them.
    pub fn zeroize(&mut self)
        ensures
            final(self)@ == DatabaseKeyModel::empty(),
    {
        wipe_bytes(&mut self.password_hash);
        wipe_bytes(&mut self.keyfile);
        wipe_bytes(&mut self.challenge_response_result);
        let mut secret: Option<ChallengeResponseKey> = None;
        std::mem::swap(&mut secret, &mut self.challenge_response_key);
        match secret {
            Some(ChallengeResponseKey::LocalChallenge(text)) => {
                let mut text: String = text;
                wipe_text(&mut text);
            },
            None => {},
        }
    }

    /// What may be shown of a key: which components it has, but nothing of what they are.
    pub fn debug_text(&self) -> (text: String)
        ensures
            text@ == shown_key(self@.password_hash is Some, self@.keyfile is Some),
    {
        let mut text: String = "DatabaseKey { has_password: ".to_owned();
        text.append(truth(self.password_hash.is_some()));
        text.append(", has_keyfile: ");
        text.append(truth(self.keyfile.is_some()));
        text.append(", .. }");
        text
    }
}

/// A truth value as text.
pub open spec fn truth_text(value: bool) -> Seq<char> {
    if value {
        "true"@
    } else {
        "false"@
    }
}

fn truth(value: bool) -> (text: &'static str)
    ensures
        text@ == truth_text(value),
{
    if value {
        "true"
    } else {
        "false"
    }
}

/// What is shown of a key.
pub open spec fn shown_key(has_password: bool, has_keyfile: bool) -> Seq<char> {
    "DatabaseKey { has_password: "@ + truth_text(has_password) + ", has_keyfile: "@ + truth_text(has_keyfile)
        + ", .. }"@
}

/// Of a password only the digest enters the key: it is the one component of a key made from a
/// password alone.
pub proof fn password_is_reduced_to_its_digest(password: Seq<char>)
    ensures
        (DatabaseKeyModel {
            password_hash: Some(sha256_digest(encode_utf8(password))),
            ..DatabaseKeyModel::empty()
        }).elements() == seq![sha256_digest(encode_utf8(password))],
{
    let key = DatabaseKeyModel {
        password_hash: Some(sha256_digest(encode_utf8(password))),
        ..DatabaseKeyModel::empty()
    };
    assert(key.elements() =~= seq![sha256_digest(encode_utf8(password))]);
}

/// The components of a key come in a fixed order, whatever the order in which they were given:
/// password, keyfile, answer to the challenge.
pub proof fn elements_come_in_order(
    hash: Seq<u8>,
    keyfile: Seq<u8>,
    challenge: Option<ChallengeResponseKeyModel>,
    response: Seq<u8>,
)
    ensures
        (DatabaseKeyModel {
            password_hash: Some(hash),
            keyfile: Some(keyfile),
            challenge_response_key: challenge,
            challenge_response_result: Some(response),
        }).elements() == seq![hash, keyfile_key(keyfile), sha256_digest(response)],
{
    let key = DatabaseKeyModel {
        password_hash: Some(hash),
        keyfile: Some(keyfile),
        challenge_response_key: challenge,
        challenge_response_result: Some(response),
    };
    assert(key.elements() =~= seq![hash, keyfile_key(keyfile), sha256_digest(response)]);
}

/// A key has a component of its own exactly if it has a password or a keyfile; a challenge alone is
/// not enough.
pub proof fn key_needs_password_or_keyfile(key: DatabaseKeyModel)
    ensures
        key.own_elements().len() == 0 <==> key.password_hash is None && key.keyfile is None,
{
}

/// A keyfile that is no XML keyfile is the key itself if it is 32 bytes long, and otherwise its
/// digest is.
pub proof fn plain_keyfile_is_key_or_digest(file: Seq<u8>)
    requires
        crate::key::keyfile::xml_key(crate::key::crates::document_items(file)) is None,
    ensures
        file.len() == 32 ==> keyfile_key(file) == file,
        file.len() != 32 ==> keyfile_key(file) == sha256_digest(file),
{
}

} // verus!

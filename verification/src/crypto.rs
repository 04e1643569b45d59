//! Identities, signatures, key agreement, encryption and checksums.
use ::base64::Engine;
use aes_gcm::aead::Aead;
use aes_gcm::KeyInit;
use rand_core::RngCore;
use ring::signature::KeyPair;
use vstd::prelude::*;
use crate::base64::encoded;
use crate::core_consts::TOTAL_BUFFER_SIZE;

verus! {

/// The last nonce of a connection: the largest number of twelve bytes.
pub const NONCE_MAX: u128 = 79_228_162_514_264_337_593_543_950_335;

/// The first nonce of a connection.
pub const NONCE_INIT: u128 = 0;

/// Why the standard base64 engine refuses a text, in its words.
pub uninterp spec fn base64_refusal(text: Seq<char>) -> Seq<char>;

/// What a PKCS#8 document holds as an Ed25519 key pair: its public key, or why it is refused.
pub uninterp spec fn ed25519_public_key(pkcs8: Seq<u8>) -> Result<Seq<u8>, Seq<char>>;

/// The Ed25519 signature of a message under the key pair of a PKCS#8 document.
pub uninterp spec fn ed25519_signature(pkcs8: Seq<u8>, message: Seq<u8>) -> Seq<u8>;

/// Whether a signature of a message is valid under an Ed25519 public key.
pub uninterp spec fn ed25519_valid(
    public_key: Seq<u8>,
    message: Seq<u8>,
    signature: Seq<u8>,
) -> bool;

/// The X25519 public key of a secret.
pub uninterp spec fn x25519_public(secret: Seq<u8>) -> Seq<u8>;

/// What X25519 makes of one side's secret and the other side's public key.
pub uninterp spec fn x25519_shared(secret: Seq<u8>, public_key: Seq<u8>) -> Seq<u8>;

/// AES-256-GCM ciphertext, tag included.
pub uninterp spec fn aes256gcm_sealed(
    key: Seq<u8>,
    nonce: Seq<u8>,
    plaintext: Seq<u8>,
) -> Seq<u8>;

/// What AES-256-GCM opens a ciphertext to; nothing where the tag does not match.
pub uninterp spec fn aes256gcm_opened(
    key: Seq<u8>,
    nonce: Seq<u8>,
    ciphertext: Seq<u8>,
) -> Option<Seq<u8>>;

/// The CRC-32 checksum of some bytes.
pub uninterp spec fn crc32(bytes: Seq<u8>) -> u32;

/// `base64::engine::general_purpose::STANDARD.decode` reverses the padded encoding with the
/// standard alphabet. It takes exactly the texts that encoding produces: padding has to be
/// complete and unused bits have to be zero. Any other text is refused with a reason.
#[verifier::external_body]
pub(crate) fn standard_decode(text: &str) -> (r: Result<Vec<u8>, String>)
    ensures
        match r {
            Ok(bytes) => text@ == encoded(bytes@),
            Err(e) => e@ == base64_refusal(text@) && forall|b: Seq<u8>|
                #[trigger] encoded(b) != text@,
        },
{
    ::base64::engine::general_purpose::STANDARD.decode(text).map_err(|e| e.to_string())
}

/// `base64::engine::general_purpose::STANDARD.encode` writes padded base64 with the standard
/// alphabet. Its only panic is on a text longer than `usize::MAX`, which no `Vec` of bytes has.
#[verifier::external_body]
pub(crate) fn standard_encode(bytes: &Vec<u8>) -> (s: String)
    ensures
        s@ == encoded(bytes@),
{
    ::base64::engine::general_purpose::STANDARD.encode(bytes)
}

/// `ring::signature::Ed25519KeyPair::generate_pkcs8` draws a random key pair from the system and
/// returns it as a PKCS#8 document, which `from_pkcs8` accepts; it fails where the system gives
/// no random bytes.
#[verifier::external_body]
fn ring_generate_pkcs8() -> (r: Result<Vec<u8>, String>)
    ensures
        r matches Ok(pkcs8) ==> ed25519_public_key(pkcs8@) is Ok,
{
    let rng = ring::rand::SystemRandom::new();
    match ring::signature::Ed25519KeyPair::generate_pkcs8(&rng) {
        Ok(pkcs8) => Ok(pkcs8.as_ref().to_vec()),
        Err(e) => Err(e.to_string()),
    }
}

/// `ring::signature::Ed25519KeyPair::from_pkcs8` and `public_key`: the 32 bytes of the public key
/// in a PKCS#8 document, or why the document is refused.
#[verifier::external_body]
pub(crate) fn ring_public_key(pkcs8: &[u8]) -> (r: Result<Vec<u8>, String>)
    ensures
        match r {
            Ok(public_key) => ed25519_public_key(pkcs8@) == Ok::<Seq<u8>, Seq<char>>(public_key@)
                && public_key@.len() == 32,
            Err(e) => ed25519_public_key(pkcs8@) == Err::<Seq<u8>, Seq<char>>(e@),
        },
{
    match ring::signature::Ed25519KeyPair::from_pkcs8(pkcs8) {
        Ok(pair) => Ok(pair.public_key().as_ref().to_vec()),
        Err(e) => Err(e.to_string()),
    }
}

/// `ring::signature::Ed25519KeyPair::sign`: a signature of 64 bytes, the same for the same key
/// and message, which is valid under the key pair's public key. A document that `from_pkcs8`
/// refuses signs nothing.
#[verifier::external_body]
pub(crate) fn ring_sign(pkcs8: &[u8], message: &[u8]) -> (r: Result<Vec<u8>, String>)
    ensures
        match ed25519_public_key(pkcs8@) {
            Ok(public_key) => r matches Ok(signature) && signature@ == ed25519_signature(
                pkcs8@,
                message@,
            ) && signature@.len() == 64 && ed25519_valid(public_key, message@, signature@),
            Err(e) => r matches Err(why) && why@ == e,
        },
{
    match ring::signature::Ed25519KeyPair::from_pkcs8(pkcs8) {
        Ok(pair) => Ok(pair.sign(message).as_ref().to_vec()),
        Err(e) => Err(e.to_string()),
    }
}

/// `ring::signature::UnparsedPublicKey::verify` with `ring::signature::ED25519`: whether it accepts
/// a signature. Keys and signatures of a wrong length are not valid.
#[verifier::external_body]
pub(crate) fn ring_verify(public_key: &[u8], message: &[u8], signature: &[u8]) -> (valid: bool)
    ensures
        valid == ed25519_valid(public_key@, message@, signature@),
{
    ring::signature::UnparsedPublicKey::new(&ring::signature::ED25519, public_key)
        .verify(message, signature)
        .is_ok()
}

/// `rand_core::OsRng::try_fill_bytes`: bytes from the system's random source. Nothing is
/// promised of what they are.
#[verifier::external_body]
pub(crate) fn os_random() -> (r: Result<[u8; 32], String>)
{
    let mut bytes = [0u8; 32];
    match rand_core::OsRng.try_fill_bytes(&mut bytes) {
        Ok(()) => Ok(bytes),
        Err(e) => Err(e.to_string()),
    }
}

/// `x25519_dalek::PublicKey::from` on a secret: its public key.
#[verifier::external_body]
pub(crate) fn dalek_public(secret: &[u8; 32]) -> (public_key: [u8; 32])
    ensures
        public_key@ == x25519_public(secret@),
{
    let secret = x25519_dalek::StaticSecret::from(*secret);
    x25519_dalek::PublicKey::from(&secret).to_bytes()
}

/// `x25519_dalek::StaticSecret::diffie_hellman`: the secret shared with the owner of a public key.
/// Both sides get the same bytes, each from its own secret and the other's public key.
#[verifier::external_body]
pub(crate) fn dalek_shared(secret: &[u8; 32], public_key: &[u8; 32]) -> (shared: [u8; 32])
    ensures
        shared@ == x25519_shared(secret@, public_key@),
        forall|other: Seq<u8>|
            other.len() == 32 && #[trigger] x25519_public(other) == public_key@ ==> shared@
                == x25519_shared(other, x25519_public(secret@)),
{
    let secret = x25519_dalek::StaticSecret::from(*secret);
    secret.diffie_hellman(&x25519_dalek::PublicKey::from(*public_key)).to_bytes()
}

/// `aes_gcm::Aes256Gcm::encrypt`: the ciphertext with its tag of 16 bytes, which `decrypt` opens
/// again with the same key and nonce. It fails only on plaintexts of more than 2^36 bytes.
#[verifier::external_body]
pub(crate) fn gcm_encrypt(key: &[u8; 32], nonce: &[u8], plaintext: &[u8]) -> (r: Option<Vec<u8>>)
    requires
        nonce@.len() == 12,
        plaintext@.len() <= TOTAL_BUFFER_SIZE,
    ensures
        r is Some,
        r->0@ == aes256gcm_sealed(key@, nonce@, plaintext@),
        r->0@.len() == plaintext@.len() + 16,
        aes256gcm_opened(key@, nonce@, r->0@) == Some(plaintext@),
{
    let cipher = aes_gcm::Aes256Gcm::new(aes_gcm::Key::<aes_gcm::Aes256Gcm>::from_slice(key));
    cipher.encrypt(aes_gcm::Nonce::from_slice(nonce), plaintext).ok()
}

/// `aes_gcm::Aes256Gcm::decrypt`: the plaintext, which is 16 bytes shorter than the ciphertext,
/// or nothing where the ciphertext was not made with this key and nonce.
#[verifier::external_body]
pub(crate) fn gcm_decrypt(key: &[u8; 32], nonce: &[u8], ciphertext: &[u8]) -> (r: Option<Vec<u8>>)
    requires
        nonce@.len() == 12,
    ensures
        match r {
            Some(plaintext) => aes256gcm_opened(key@, nonce@, ciphertext@) == Some(plaintext@)
                && plaintext@.len() + 16 == ciphertext@.len(),
            None => aes256gcm_opened(key@, nonce@, ciphertext@) is None,
        },
{
    let cipher = aes_gcm::Aes256Gcm::new(aes_gcm::Key::<aes_gcm::Aes256Gcm>::from_slice(key));
    cipher.decrypt(aes_gcm::Nonce::from_slice(nonce), ciphertext).ok()
}

/// `crc32fast::hash`: the CRC-32 checksum.
#[verifier::external_body]
pub(crate) fn crc32_hash(bytes: &[u8]) -> (sum: u32)
    ensures
        sum == crc32(bytes@),
{
    crc32fast::hash(bytes)
}

/// Why no identity could be made.
#[derive(Clone, Debug)]
pub enum IdPairError {
    Generate(String),
    Rejected(String),
}

impl IdPairError {
    /// The wording of `message`.
    pub open spec fn message_text(&self) -> Seq<char> {
        match self {
            IdPairError::Generate(e) => "Failed to generate pkcs8 bytes. "@ + e@,
            IdPairError::Rejected(e) => "Key Pair rejected. "@ + e@,
        }
    }

    /// The error in words.
    pub fn message(&self) -> (s: String)
        ensures
            s@ == self.message_text(),
    {
        let mut s = String::new();
        match self {
            IdPairError::Generate(e) => {
                s.push_str("Failed to generate pkcs8 bytes. ");
                s.push_str(e.as_str());
            },
            IdPairError::Rejected(e) => {
                s.push_str("Key Pair rejected. ");
                s.push_str(e.as_str());
            },
        }
        assert(s@ =~= self.message_text());
        s
    }
}

/// The private and the public id of a freshly generated key pair.
pub fn id_pair_from(generated: Result<Vec<u8>, String>) -> (r: Result<
    (Vec<u8>, Vec<u8>),
    IdPairError,
>)
    ensures
        match generated {
            Err(e) => r == Err::<(Vec<u8>, Vec<u8>), IdPairError>(IdPairError::Generate(e)),
            Ok(pkcs8) => match ed25519_public_key(pkcs8@) {
                Ok(public_id) => r is Ok && r->Ok_0.0 == pkcs8 && r->Ok_0.1@ == public_id
                    && public_id.len() == 32,
                Err(e) => r is Err && r->Err_0 is Rejected && r->Err_0->Rejected_0@ == e,
            },
        },
{
    match generated {
        Err(e) => Err(IdPairError::Generate(e)),
        Ok(pkcs8) => match ring_public_key(pkcs8.as_slice()) {
            Ok(public_id) => Ok((pkcs8, public_id)),
            Err(e) => Err(IdPairError::Rejected(e)),
        },
    }
}

/// A new private id, in PKCS#8 form, and the public id that belongs to it.
pub fn generate_id_pair() -> (r: Result<(Vec<u8>, Vec<u8>), IdPairError>)
    ensures
        r matches Ok(pair) ==> ed25519_public_key(pair.0@) == Ok::<Seq<u8>, Seq<char>>(pair.1@)
            && pair.1@.len() == 32,
        r matches Err(e) ==> e is Generate,
{
    id_pair_from(ring_generate_pkcs8())
}

/// The bytes of a padded base64 text.
pub fn get_bytes_from_base64_str(string: &str) -> (r: Result<Vec<u8>, String>)
    ensures
        match r {
            Ok(bytes) => string@ == encoded(bytes@),
            Err(e) => e@ == base64_refusal(string@) && !is_base64(string@),
        },
        r is Ok <==> is_base64(string@),
{
    standard_decode(string)
}

/// Whether a text is the padded base64 text of some bytes.
pub open spec fn is_base64(text: Seq<char>) -> bool {
    exists|b: Seq<u8>| #[trigger] encoded(b) == text
}

/// The padded base64 text of some bytes.
pub fn get_base64_str_from_bytes(bytes: Vec<u8>) -> (s: String)
    ensures
        s@ == encoded(bytes@),
{
    standard_encode(&bytes)
}

} // verus!

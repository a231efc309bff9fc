//! ADB public keys: Android's on-disk format, and the fingerprint we show.

use crate::text;
use crate::wire;
use base64::engine::general_purpose::{STANDARD, STANDARD_NO_PAD};
use base64::Engine;
use rsa::pkcs8::EncodePublicKey;
use sha2::Digest;
use vstd::prelude::*;
use vstd::string::*;

verus! {

/// Bytes in the on-disk blob: two `u32` headers, modulus, R², exponent.
pub const BLOB_SIZE: usize = 524;

/// 2048-bit keys only, which is all `adb` has ever generated.
pub const MODULUS_WORDS: u32 = 64;

pub const MODULUS_SIZE: usize = 256;

/// Why a text is no key.
#[derive(Debug, Clone, Copy, PartialEq, Eq, Structural)]
pub enum KeyError {
    Empty,
    NotBase64,
    WrongSize(usize),
    UnsupportedSize,
    NotAnRsaKey,
}

impl KeyError {
    pub open spec fn text(self) -> Seq<char> {
        match self {
            KeyError::Empty => "the key is empty"@,
            KeyError::NotBase64 => "the key is not valid base64"@,
            KeyError::WrongSize(size) => "expected a 524-byte ADB public key, got "@
                + text::decimal(size as nat) + " bytes"@,
            KeyError::UnsupportedSize => "only 2048-bit ADB keys are supported"@,
            KeyError::NotAnRsaKey => "the key's modulus and exponent do not form an RSA key"@,
        }
    }

    /// The error in words.
    pub fn message(&self) -> (message: String)
        ensures
            message@ == self.text(),
    {
        let mut out = String::new();
        match self {
            KeyError::Empty => {
                out.append("the key is empty");
            },
            KeyError::NotBase64 => {
                out.append("the key is not valid base64");
            },
            KeyError::WrongSize(size) => {
                out.append("expected a 524-byte ADB public key, got ");
                text::push_decimal(&mut out, *size as u64);
                out.append(" bytes");
            },
            KeyError::UnsupportedSize => {
                out.append("only 2048-bit ADB keys are supported");
            },
            KeyError::NotAnRsaKey => {
                out.append("the key's modulus and exponent do not form an RSA key");
            },
        }
        assert(out@ =~= self.text());
        out
    }
}

/// The number that bytes stand for, most significant first.
pub open spec fn big_endian(bytes: Seq<u8>) -> nat
    decreases bytes.len(),
{
    if bytes.len() == 0 {
        0
    } else {
        big_endian(bytes.drop_last()) * 256 + bytes.last() as nat
    }
}

/// Whether a modulus, most significant byte first, and an exponent form an RSA
/// key: both odd, the exponent above one and below the modulus, and the modulus
/// no longer than 4096 bits.
pub open spec fn is_rsa_key(modulus: Seq<u8>, exponent: u32) -> bool {
    &&& big_endian(modulus) < vstd::arithmetic::power2::pow2(4096)
    &&& exponent < big_endian(modulus)
    &&& big_endian(modulus) % 2 == 1
    &&& exponent % 2 == 1
    &&& exponent >= 2
}

/// `rsa::RsaPublicKey::new`, which accepts what `is_rsa_key` says.
#[verifier::external_body]
fn forms_rsa_key(modulus: &[u8], exponent: u32) -> (forms: bool)
    ensures
        forms == is_rsa_key(modulus@, exponent),
{
    let modulus = rsa::BigUint::from_bytes_be(modulus);
    rsa::RsaPublicKey::new(modulus, rsa::BigUint::from(exponent)).is_ok()
}

/// The DER of a key's SubjectPublicKeyInfo.
pub uninterp spec fn spki_der(modulus: Seq<u8>, exponent: u32) -> Seq<u8>;

/// `rsa::RsaPublicKey::to_public_key_der`, which cannot fail for a key that was
/// accepted: the DER of the key's SubjectPublicKeyInfo.
#[verifier::external_body]
fn public_key_der(modulus: &[u8], exponent: u32) -> (der: Vec<u8>)
    requires
        is_rsa_key(modulus@, exponent),
    ensures
        der@ == spki_der(modulus@, exponent),
{
    let modulus = rsa::BigUint::from_bytes_be(modulus);
    let key = rsa::RsaPublicKey::new(modulus, rsa::BigUint::from(exponent)).unwrap();
    key.to_public_key_der().unwrap().as_bytes().to_vec()
}

/// Whether `signature` is the PKCS#1 v1.5 signature, with the prefix for SHA-1,
/// of `token` as a digest under this key.
pub uninterp spec fn signature_verifies(
    modulus: Seq<u8>,
    exponent: u32,
    token: Seq<u8>,
    signature: Seq<u8>,
) -> bool;

/// `rsa::RsaPublicKey::verify` with `rsa::Pkcs1v15Sign::new::<sha1::Sha1>()`.
/// A token that is not as long as a SHA-1 digest is never verified.
#[verifier::external_body]
fn verify_signature(modulus: &[u8], exponent: u32, token: &[u8], signature: &[u8]) -> (verified:
    bool)
    requires
        is_rsa_key(modulus@, exponent),
    ensures
        verified == signature_verifies(modulus@, exponent, token@, signature@),
        verified ==> token@.len() == 20,
{
    let modulus = rsa::BigUint::from_bytes_be(modulus);
    let key = rsa::RsaPublicKey::new(modulus, rsa::BigUint::from(exponent)).unwrap();
    key.verify(rsa::Pkcs1v15Sign::new::<sha1::Sha1>(), token, signature).is_ok()
}

/// The SHA-256 digest of a byte string.
pub uninterp spec fn sha256(bytes: Seq<u8>) -> Seq<u8>;

/// `sha2::Sha256::digest`, which is 32 bytes long.
#[verifier::external_body]
fn sha256_digest(bytes: &[u8]) -> (digest: Vec<u8>)
    ensures
        digest@ == sha256(bytes@),
        digest@.len() == 32,
{
    sha2::Sha256::digest(bytes).to_vec()
}

/// The bytes that a base64 text stands for, in the standard alphabet with
/// padding.
pub uninterp spec fn base64_decoded(encoded: Seq<char>) -> Option<Seq<u8>>;

/// `base64::engine::general_purpose::STANDARD.decode`. Every three bytes, and
/// what is left over, take four characters.
#[verifier::external_body]
fn decode_base64(encoded: &str) -> (decoded: Option<Vec<u8>>)
    ensures
        bytes_of(decoded) == base64_decoded(encoded@),
        decoded matches Some(bytes) ==> encoded@.len() == (bytes@.len() + 2) / 3 * 4,
{
    STANDARD.decode(encoded).ok()
}

/// Bytes as base64 in the standard alphabet, without padding.
pub uninterp spec fn base64_unpadded(bytes: Seq<u8>) -> Seq<char>;

/// `base64::engine::general_purpose::STANDARD_NO_PAD.encode`. Every six bits,
/// and what is left over, take one character.
#[verifier::external_body]
fn encode_base64(bytes: &[u8]) -> (encoded: String)
    ensures
        encoded@ == base64_unpadded(bytes@),
        encoded@.len() == (bytes@.len() * 4 + 2) / 3,
{
    STANDARD_NO_PAD.encode(bytes)
}

/// Bytes that may not be there.
pub open spec fn bytes_of(bytes: Option<Vec<u8>>) -> Option<Seq<u8>> {
    match bytes {
        Some(bytes) => Some(bytes@),
        None => None,
    }
}

/// What is shown of a key: the SHA-256 digest of its SubjectPublicKeyInfo.
pub open spec fn fingerprint_text(modulus: Seq<u8>, exponent: u32) -> Seq<char> {
    "SHA256:"@ + base64_unpadded(sha256(spki_der(modulus, exponent)))
}

/// A developer's ADB public key.
#[derive(Debug)]
pub struct PublicKey {
    modulus: Vec<u8>,
    exponent: u32,
    blob: String,
    fingerprint: String,
    comment: Option<String>,
    /// Whose key this is, when the coordinator has told us. A key offered by a
    /// client has nobody attached to it yet; that is the question being asked.
    owner: Option<String>,
}

/// What is known of a key.
pub struct PublicKeyView {
    /// Most significant byte first.
    pub modulus: Seq<u8>,
    pub exponent: u32,
    /// The key as it was offered, in base64.
    pub blob: Seq<char>,
    pub comment: Option<Seq<char>>,
    pub owner: Option<Seq<char>>,
}

impl View for PublicKey {
    type V = PublicKeyView;

    closed spec fn view(&self) -> PublicKeyView {
        PublicKeyView {
            modulus: self.modulus@,
            exponent: self.exponent,
            blob: self.blob@,
            comment: text::text_in(self.comment),
            owner: text::text_in(self.owner),
        }
    }
}

fn copied(slot: &Option<String>) -> (copy: Option<String>)
    ensures
        text::text_in(copy) == text::text_in(*slot),
{
    match slot {
        Some(text) => Some(text.clone()),
        None => None,
    }
}

impl Clone for PublicKey {
    fn clone(&self) -> (copy: Self)
        ensures
            copy@ == self@,
    {
        proof {
            use_type_invariant(self);
        }
        PublicKey {
            modulus: vstd::slice::slice_to_vec(&self.modulus),
            exponent: self.exponent,
            blob: self.blob.clone(),
            fingerprint: self.fingerprint.clone(),
            comment: copied(&self.comment),
            owner: copied(&self.owner),
        }
    }
}

impl PublicKeyView {
    /// What is shown of the key.
    pub open spec fn fingerprint(self) -> Seq<char> {
        fingerprint_text(self.modulus, self.exponent)
    }

    /// Whether `signature` proves possession of the key's private half.
    pub open spec fn verifies(self, token: Seq<u8>, signature: Seq<u8>) -> bool {
        signature_verifies(self.modulus, self.exponent, token, signature)
    }
}

/// The key in a blob: a little-endian `RSAPublicKey` struct, which is
/// `modulus_size_words`, `n0inv`, a 256-byte modulus, a 256-byte R² and the
/// exponent. `n0inv` and R² can be derived from the modulus, so they are read
/// past rather than checked.
pub open spec fn key_in_blob(blob: Seq<u8>) -> Result<(Seq<u8>, u32), KeyError> {
    if blob.len() != BLOB_SIZE {
        Err(KeyError::WrongSize(blob.len() as usize))
    } else if wire::le32_at(blob, 0) != MODULUS_WORDS {
        Err(KeyError::UnsupportedSize)
    } else {
        let modulus = blob.subrange(8, 264).reverse();
        let exponent = wire::le32_at(blob, 520) as u32;
        if is_rsa_key(modulus, exponent) {
            Ok((modulus, exponent))
        } else {
            Err(KeyError::NotAnRsaKey)
        }
    }
}

/// The comment of a key's line: every word after the first.
pub open spec fn comment_in(parts: Seq<Seq<char>>) -> Option<Seq<char>> {
    if parts.len() <= 1 {
        None
    } else {
        Some(text::join(parts.skip(1), " "@))
    }
}

/// The key in a line of `~/.android/adbkey.pub`, where `decoded` is what its
/// first word stands for in base64.
pub open spec fn key_in_parts(parts: Seq<Seq<char>>, decoded: Option<Seq<u8>>) -> Result<
    PublicKeyView,
    KeyError,
> {
    match decoded {
        None => Err(KeyError::NotBase64),
        Some(blob) => match key_in_blob(blob) {
            Err(error) => Err(error),
            Ok((modulus, exponent)) => Ok(
                PublicKeyView {
                    modulus,
                    exponent,
                    blob: parts[0],
                    comment: comment_in(parts),
                    owner: None,
                },
            ),
        },
    }
}

/// The key in a line of `~/.android/adbkey.pub`.
pub open spec fn key_in(contents: Seq<char>) -> Result<PublicKeyView, KeyError> {
    let parts = text::words(contents);
    if parts.len() == 0 {
        Err(KeyError::Empty)
    } else {
        key_in_parts(parts, base64_decoded(parts[0]))
    }
}

impl PublicKey {
    #[verifier::type_invariant]
    spec fn well_formed(self) -> bool {
        &&& is_rsa_key(self.modulus@, self.exponent)
        &&& self.fingerprint@ == fingerprint_text(self.modulus@, self.exponent)
    }

    /// Parse one line of `~/.android/adbkey.pub`, or the payload of an
    /// `AUTH RSAPUBLICKEY` message, which carry the same thing.
    pub fn parse(contents: &str) -> (key: Result<Self, KeyError>)
        ensures
            match key {
                Ok(key) => key_in(contents@) == Ok::<_, KeyError>(key@),
                Err(error) => key_in(contents@) == Err::<PublicKeyView, _>(error),
            },
    {
        let chars = text::chars_of(contents);
        let parts = text::words_of(&chars);
        assert(text::texts(parts@).len() == parts@.len());
        if parts.len() == 0 {
            return Err(KeyError::Empty);
        }
        let encoded = text::string_of(&parts[0]);
        assert(encoded@ == text::texts(parts@)[0]);
        let decoded = decode_base64(&encoded);
        Self::from_decoded(&parts, decoded)
    }

    /// The key whose line has these words, the first of which stands for
    /// `decoded` in base64.
    pub fn from_decoded(parts: &[Vec<char>], decoded: Option<Vec<u8>>) -> (key: Result<
        Self,
        KeyError,
    >)
        requires
            parts@.len() > 0,
        ensures
            match key {
                Ok(key) => key_in_parts(text::texts(parts@), bytes_of(decoded)) == Ok::<
                    _,
                    KeyError,
                >(key@),
                Err(error) => key_in_parts(text::texts(parts@), bytes_of(decoded)) == Err::<
                    PublicKeyView,
                    _,
                >(error),
            },
    {
        let blob = match decoded {
            Some(blob) => blob,
            None => {
                return Err(KeyError::NotBase64);
            },
        };
        if blob.len() != BLOB_SIZE {
            return Err(KeyError::WrongSize(blob.len()));
        }
        if wire::read_le32(&blob, 0) != MODULUS_WORDS {
            return Err(KeyError::UnsupportedSize);
        }
        // Little-endian on disk, big-endian everywhere else in cryptography.
        let mut modulus: Vec<u8> = Vec::new();
        let mut i: usize = 264;
        while i > 8
            invariant
                8 <= i <= 264,
                blob@.len() == BLOB_SIZE,
                modulus@ == blob@.subrange(i as int, 264).reverse(),
            decreases i,
        {
            let ghost more = blob@.subrange(i - 1, 264).reverse();
            i -= 1;
            modulus.push(blob[i]);
            assert(modulus@ =~= more);
        }
        let exponent: u32 = wire::read_le32(&blob, 520);
        if !forms_rsa_key(&modulus, exponent) {
            return Err(KeyError::NotAnRsaKey);
        }
        let ghost words = text::texts(parts@);
        let comment = if parts.len() == 1 {
            None
        } else {
            let rest = &parts[1..parts.len()];
            assert(text::texts(rest@) =~= words.skip(1));
            Some(text::string_of(&text::joined(rest, " ")))
        };
        let mut fingerprint = String::new();
        fingerprint.append("SHA256:");
        fingerprint.append(
            encode_base64(&sha256_digest(&public_key_der(&modulus, exponent))).as_str(),
        );
        assert(fingerprint@ =~= fingerprint_text(modulus@, exponent));
        assert(words[0] == parts@[0]@);
        Ok(
            PublicKey {
                modulus,
                exponent,
                blob: text::string_of(&parts[0]),
                fingerprint,
                comment,
                owner: None,
            },
        )
    }

    /// Attach the owner the coordinator named.
    pub fn with_owner(self, user_id: String) -> (key: Self)
        ensures
            key@ == (PublicKeyView { owner: Some(user_id@), ..self@ }),
    {
        proof {
            use_type_invariant(&self);
        }
        PublicKey {
            modulus: self.modulus,
            exponent: self.exponent,
            blob: self.blob,
            fingerprint: self.fingerprint,
            comment: self.comment,
            owner: Some(user_id),
        }
    }

    pub fn owner(&self) -> (owner: Option<&str>)
        ensures
            match owner {
                Some(owner) => self@.owner == Some(owner@),
                None => self@.owner is None,
            },
    {
        match &self.owner {
            Some(owner) => Some(owner.as_str()),
            None => None,
        }
    }

    /// `SHA256:<base64>`, unpadded, over the DER SubjectPublicKeyInfo.
    ///
    /// The coordinator derives the same string and they must agree exactly, or
    /// a key someone already registered looks unknown and the holder is asked
    /// to approve it again.
    pub fn fingerprint(&self) -> (fingerprint: &str)
        ensures
            fingerprint@ == self@.fingerprint(),
    {
        proof {
            use_type_invariant(self);
        }
        self.fingerprint.as_str()
    }

    /// The base64 blob alone, which is what the coordinator stores.
    pub fn blob(&self) -> (blob: &str)
        ensures
            blob@ == self@.blob,
    {
        self.blob.as_str()
    }

    pub fn comment(&self) -> (comment: Option<&str>)
        ensures
            match comment {
                Some(comment) => self@.comment == Some(comment@),
                None => self@.comment is None,
            },
    {
        match &self.comment {
            Some(comment) => Some(comment.as_str()),
            None => None,
        }
    }

    /// Does `signature` prove possession of this key's private half?
    ///
    /// `token` is the 20 random bytes we challenged with. ADB treats them as a
    /// SHA-1 digest and signs with PKCS#1 v1.5 including the SHA-1 DigestInfo
    /// prefix, so verification uses the prefixed scheme even though nothing was
    /// actually hashed.
    pub fn verify(&self, token: &[u8], signature: &[u8]) -> (verified: bool)
        ensures
            verified == self@.verifies(token@, signature@),
    {
        proof {
            use_type_invariant(self);
        }
        verify_signature(&self.modulus, self.exponent, token, signature)
    }
}

/// The comment, the owner and the spelling of a key do not change what it is:
/// two lines whose first words stand for the same blob have the same
/// fingerprint and verify the same signatures.
pub proof fn law_the_comment_does_not_change_the_key(
    a: Seq<char>,
    b: Seq<char>,
    token: Seq<u8>,
    signature: Seq<u8>,
)
    requires
        key_in(a) is Ok,
        key_in(b) is Ok,
        base64_decoded(text::words(a)[0]) == base64_decoded(text::words(b)[0]),
    ensures
        (key_in(a)->Ok_0).fingerprint() == (key_in(b)->Ok_0).fingerprint(),
        (key_in(a)->Ok_0).verifies(token, signature) == (key_in(b)->Ok_0).verifies(
            token,
            signature,
        ),
{
}

/// A key is read from the layout that adb writes: how many words the modulus has, a word
/// for its arithmetic, the modulus and another number of its size with their last bytes
/// first, and the exponent.
pub proof fn law_a_key_reads_back(
    helper: Seq<u8>,
    modulus: Seq<u8>,
    squared: Seq<u8>,
    exponent: u32,
)
    requires
        helper.len() == 4,
        modulus.len() == 256,
        squared.len() == 256,
    ensures
        ({
            let blob = wire::le32(64) + helper + modulus.reverse() + squared + wire::le32(exponent);
            key_in_blob(blob) == if is_rsa_key(modulus, exponent) {
                Ok((modulus, exponent))
            } else {
                Err(KeyError::NotAnRsaKey)
            }
        }),
{
    let blob = wire::le32(64) + helper + modulus.reverse() + squared + wire::le32(exponent);
    let behind = helper + modulus.reverse() + squared + wire::le32(exponent);
    wire::law_le32_reads_back(64, Seq::empty(), behind);
    assert(blob =~= Seq::<u8>::empty() + wire::le32(64) + behind);
    let before = wire::le32(64) + helper + modulus.reverse() + squared;
    wire::law_le32_reads_back(exponent, before, Seq::empty());
    assert(blob =~= before + wire::le32(exponent) + Seq::<u8>::empty());
    assert(wire::le32(64).len() == 4 && wire::le32(exponent).len() == 4);
    assert(before.len() == 520);
    assert(blob.subrange(8, 264) =~= modulus.reverse());
    assert(modulus.reverse().reverse() =~= modulus);
}

/// What is no key is refused for what is wrong with it: its length first, and then the
/// size that it gives.
pub proof fn law_what_is_no_key_is_refused(blob: Seq<u8>)
    requires
        blob.len() <= usize::MAX,
    ensures
        blob.len() != 524 ==> key_in_blob(blob) == Err::<(Seq<u8>, u32), _>(
            KeyError::WrongSize(blob.len() as usize),
        ),
        blob.len() == 524 && wire::le32_at(blob, 0) != 64 ==> key_in_blob(blob) == Err::<
            (Seq<u8>, u32),
            _,
        >(KeyError::UnsupportedSize),
{
}

} // verus!

//! Key derivation (HKDF-SHA256), AES-256-GCM sealing and SHA-256 digests.
//!
//! Two independent keys are used:
//! - the relay key, derived from the relay password, protects the channel
//!   between a client and the relay;
//! - the file key, derived from the room code, protects the file payload
//!   between the two peers.
//!
//! The relay never learns the file key, so it cannot read file contents: of the
//! code it is told only a room name, which is derived under another label than
//! the key. That neither can be computed from the other rests on HKDF.

use aes_gcm::aead::Aead;
use aes_gcm::KeyInit;
use rand::Rng;
use sha2::Digest;
use vstd::prelude::*;
use vstd::utf8::{encode_utf8, is_ascii_chars, is_ascii_chars_encode_utf8};

verus! {

/// Length of the nonce that leads every sealed blob.
pub const NONCE_LEN: usize = 12;

/// Length of the authentication tag that ends every sealed blob.
pub const TAG_LEN: usize = 16;

/// The longest plaintext that AES-GCM seals under one nonce.
pub const MAX_PLAINTEXT: u64 = 68_719_476_704;

/// Why a blob could not be opened.
#[derive(Debug, Clone, Copy, PartialEq, Eq, Structural)]
pub enum CryptoError {
    /// The blob is shorter than a nonce.
    TooShort,
    /// Wrong key, or the data was altered.
    DecryptionFailed,
}

/// What is said about a blob that could not be opened.
pub open spec fn crypto_text(e: CryptoError) -> Seq<char> {
    match e {
        CryptoError::TooShort => "ciphertext too short"@,
        CryptoError::DecryptionFailed => "decryption failed (wrong key or corrupted data)"@,
    }
}

impl CryptoError {
    /// What is said about it.
    pub fn text(&self) -> (text: String)
        ensures
            text@ == crypto_text(*self),
    {
        match self {
            CryptoError::TooShort => "ciphertext too short".to_owned(),
            CryptoError::DecryptionFailed => {
                "decryption failed (wrong key or corrupted data)".to_owned()
            },
        }
    }
}

/// What HKDF-SHA256 (no salt) expands from `ikm` and `info` to 32 bytes.
pub uninterp spec fn hkdf_sha256(ikm: Seq<u8>, info: Seq<u8>) -> Seq<u8>;

/// What AES-256-GCM encryption of `plaintext` without associated data yields:
/// the ciphertext followed by the tag.
pub uninterp spec fn aes256gcm_seal(key: Seq<u8>, nonce: Seq<u8>, plaintext: Seq<u8>) -> Seq<u8>;

/// What AES-256-GCM decryption without associated data yields.
pub uninterp spec fn aes256gcm_open(key: Seq<u8>, nonce: Seq<u8>, sealed: Seq<u8>) -> Option<
    Seq<u8>,
>;

/// The SHA-256 digest of `data`.
pub uninterp spec fn sha256(data: Seq<u8>) -> Seq<u8>;

/// The bytes that a hasher has been fed since it was made.
pub uninterp spec fn sha256_fed(hasher: sha2::Sha256) -> Seq<u8>;

/// `sha2::Sha256`, the streaming SHA-256 hasher.
#[verifier::external_type_specification]
#[verifier::external_body]
pub struct ExSha256(sha2::Sha256);

/// Calls `hkdf::Hkdf::new` without a salt and `Hkdf::expand` into 32 bytes.
/// The contract names the bytes that come out; `expand` fails only for outputs
/// longer than 255 hash lengths.
#[verifier::external_body]
fn hkdf_expand(ikm: &[u8], info: &[u8]) -> (okm: [u8; 32])
    ensures
        okm@ == hkdf_sha256(ikm@, info@),
{
    let hk = hkdf::Hkdf::<sha2::Sha256>::new(None, ikm);
    let mut okm = [0u8; 32];
    hk.expand(info, &mut okm).expect("hkdf expand to 32 bytes");
    okm
}

/// Calls `rand::rng` and `Rng::fill_bytes`. Nothing is claimed of the bytes.
#[verifier::external_body]
pub(crate) fn random_bytes<const N: usize>() -> (bytes: [u8; N]) {
    let mut bytes = [0u8; N];
    rand::rng().fill_bytes(&mut bytes);
    bytes
}

/// Whether these bytes are what a draw from the random source handed out. No
/// bytes are known to be but those that a draw did hand out.
pub closed spec fn drawn<const N: usize>(bytes: [u8; N]) -> bool {
    call_ensures(random_bytes::<N>, (), bytes)
}

/// Draw bytes from the random source.
pub(crate) fn draw<const N: usize>() -> (bytes: [u8; N])
    ensures
        call_ensures(random_bytes::<N>, (), bytes),
        drawn(bytes),
{
    random_bytes::<N>()
}

/// Drawn bytes come from the random source: they are a result of
/// [`random_bytes`].
pub(crate) proof fn law_drawn_comes_from_the_source<const N: usize>(bytes: [u8; N])
    ensures
        drawn(bytes) <==> call_ensures(random_bytes::<N>, (), bytes),
{
}

/// Calls `Aead::encrypt` of `aes_gcm::Aes256Gcm`, which fails only for a
/// plaintext above the limit. The contract names the result, and claims that
/// it is one tag longer than the plaintext and that decryption under the same
/// key and nonce gives the plaintext back.
#[verifier::external_body]
fn aead_encrypt(key: &[u8; 32], nonce: &[u8; 12], plaintext: &[u8]) -> (sealed: Vec<u8>)
    requires
        plaintext@.len() <= MAX_PLAINTEXT,
    ensures
        sealed@ == aes256gcm_seal(key@, nonce@, plaintext@),
        sealed@.len() == plaintext@.len() + TAG_LEN,
        aes256gcm_open(key@, nonce@, sealed@) == Some(plaintext@),
{
    let cipher = aes_gcm::Aes256Gcm::new_from_slice(key).expect("32-byte key");
    let nonce = aes_gcm::Nonce::try_from(nonce.as_slice()).expect("nonce is 12 bytes");
    cipher.encrypt(&nonce, plaintext).expect("plaintext within the limit")
}

/// Calls `Aead::decrypt` of `aes_gcm::Aes256Gcm`. The contract names the
/// result, and claims of a success that encrypting the plaintext under the
/// same key and nonce yields the given bytes.
#[verifier::external_body]
fn aead_decrypt(key: &[u8; 32], nonce: &[u8; 12], sealed: &[u8]) -> (plaintext: Option<Vec<u8>>)
    ensures
        plaintext is Some <==> aes256gcm_open(key@, nonce@, sealed@) is Some,
        plaintext matches Some(p) ==> Some(p@) == aes256gcm_open(key@, nonce@, sealed@),
        plaintext matches Some(p) ==> sealed@ == aes256gcm_seal(key@, nonce@, p@),
        plaintext matches Some(p) ==> sealed@.len() == p@.len() + TAG_LEN,
{
    let cipher = aes_gcm::Aes256Gcm::new_from_slice(key).expect("32-byte key");
    let nonce = aes_gcm::Nonce::try_from(nonce.as_slice()).expect("nonce is 12 bytes");
    cipher.decrypt(&nonce, sealed).ok()
}

/// Calls `Digest::new` of `sha2::Sha256`: a hasher that was fed nothing.
#[verifier::external_body]
fn sha256_new() -> (hasher: sha2::Sha256)
    ensures
        sha256_fed(hasher) == Seq::<u8>::empty(),
{
    sha2::Sha256::new()
}

/// Calls `Digest::update` of `sha2::Sha256`: the data is fed after what was
/// fed before.
#[verifier::external_body]
fn sha256_update(hasher: &mut sha2::Sha256, data: &[u8])
    ensures
        sha256_fed(*final(hasher)) == sha256_fed(*old(hasher)) + data@,
{
    hasher.update(data);
}

/// Calls `Digest::finalize` of `sha2::Sha256`: the 32-byte digest of all that
/// was fed.
#[verifier::external_body]
fn sha256_finish(hasher: sha2::Sha256) -> (digest: Vec<u8>)
    ensures
        digest@ == sha256(sha256_fed(hasher)),
        digest@.len() == 32,
{
    hasher.finalize().to_vec()
}

/// The hexadecimal digit for a value below 16, in lower case.
pub open spec fn hex_digit(v: int) -> char {
    "0123456789abcdef"@[v]
}

/// Two digits for each byte, the high half first.
pub open spec fn hex_text(bytes: Seq<u8>) -> Seq<char> {
    Seq::new(
        2 * bytes.len(),
        |i: int|
            if i % 2 == 0 {
                hex_digit(bytes[i / 2] as int / 16)
            } else {
                hex_digit(bytes[i / 2] as int % 16)
            },
    )
}

/// Calls `hex::encode`, which writes every byte as two lower-case digits.
#[verifier::external_body]
fn hex_encode(bytes: &[u8]) -> (text: String)
    ensures
        text@ == hex_text(bytes@),
{
    hex::encode(bytes)
}

/// Digits are one byte each in UTF-8.
pub(crate) proof fn lemma_hex_is_ascii(bytes: Seq<u8>)
    ensures
        encode_utf8(hex_text(bytes)).len() == 2 * bytes.len(),
{
    reveal_strlit("0123456789abcdef");
    assert(is_ascii_chars(hex_text(bytes)));
    is_ascii_chars_encode_utf8(hex_text(bytes));
}

/// The digest text that a manifest carries for a file with this content.
pub open spec fn digest_text(content: Seq<u8>) -> Seq<char> {
    hex_text(sha256(content))
}

/// A running SHA-256 over a file's content.
pub struct FileDigest {
    hasher: sha2::Sha256,
}

impl View for FileDigest {
    type V = Seq<u8>;

    /// The content seen so far.
    closed spec fn view(&self) -> Seq<u8> {
        sha256_fed(self.hasher)
    }
}

impl FileDigest {
    /// A digest that has seen nothing.
    pub fn new() -> (digest: FileDigest)
        ensures
            digest@ == Seq::<u8>::empty(),
    {
        FileDigest { hasher: sha256_new() }
    }

    /// Add the next piece of the content.
    pub fn update(&mut self, data: &[u8])
        ensures
            final(self)@ == old(self)@ + data@,
    {
        sha256_update(&mut self.hasher, data);
    }

    /// The hex-encoded SHA-256 of the content.
    pub fn finish(self) -> (text: String)
        ensures
            text@ == digest_text(self@),
            text@ == hex_text(sha256(self@)),
    {
        let digest = sha256_finish(self.hasher);
        hex_encode(digest.as_slice())
    }
}

/// The key that a secret stands for.
pub open spec fn derived_key(secret: Seq<u8>) -> Seq<u8> {
    hkdf_sha256(secret, encode_utf8("relaydrop-v1"@))
}

/// Derive a fixed 32-byte key from an arbitrary secret via HKDF-SHA256.
pub fn derive_key(secret: &[u8]) -> (key: [u8; 32])
    ensures
        key@ == derived_key(secret@),
        key@ == hkdf_sha256(secret@, encode_utf8("relaydrop-v1"@)),
{
    hkdf_expand(secret, "relaydrop-v1".as_bytes())
}

/// The room in which peers with this code meet.
pub open spec fn room_of(code: Seq<char>) -> Seq<char> {
    hex_text(hkdf_sha256(encode_utf8(code), encode_utf8("relaydrop-room-v1"@)))
}

/// Derive the room name from a code. It is what the relay is told in place of
/// the code.
pub fn room_name(code: &str) -> (room: String)
    ensures
        room@ == room_of(code@),
        room@ == hex_text(hkdf_sha256(encode_utf8(code@), encode_utf8("relaydrop-room-v1"@))),
        room@.len() == 64,
{
    let name = hkdf_expand(code.as_bytes(), "relaydrop-room-v1".as_bytes());
    hex_encode(name.as_slice())
}

/// The room name and the file key come out of different derivations: their
/// labels differ.
pub proof fn law_labels_differ()
    ensures
        encode_utf8("relaydrop-room-v1"@) != encode_utf8("relaydrop-v1"@),
{
    reveal_strlit("relaydrop-room-v1");
    reveal_strlit("relaydrop-v1");
    is_ascii_chars_encode_utf8("relaydrop-room-v1"@);
    is_ascii_chars_encode_utf8("relaydrop-v1"@);
    assert(encode_utf8("relaydrop-room-v1"@).len() != encode_utf8("relaydrop-v1"@).len());
}

/// A sealed blob: the nonce, then ciphertext and tag.
pub open spec fn envelope(key: Seq<u8>, nonce: Seq<u8>, plaintext: Seq<u8>) -> Seq<u8> {
    nonce + aes256gcm_seal(key, nonce, plaintext)
}

/// What opening `blob` with `key` gives.
pub open spec fn opened(key: Seq<u8>, blob: Seq<u8>) -> Result<Seq<u8>, CryptoError> {
    if blob.len() < NONCE_LEN {
        Err(CryptoError::TooShort)
    } else {
        match aes256gcm_open(key, blob.take(NONCE_LEN as int), blob.skip(NONCE_LEN as int)) {
            Some(plaintext) => Ok(plaintext),
            None => Err(CryptoError::DecryptionFailed),
        }
    }
}

/// Put a blob together: `nonce(12) || ciphertext || tag(16)`.
pub fn blob_from(nonce: &[u8; 12], sealed: &[u8]) -> (blob: Vec<u8>)
    ensures
        blob@ == nonce@ + sealed@,
{
    let mut blob: Vec<u8> = Vec::new();
    blob.extend_from_slice(nonce.as_slice());
    blob.extend_from_slice(sealed);
    proof {
        assert(blob@ =~= nonce@ + sealed@);
    }
    blob
}

/// Take a blob apart into its nonce and what was sealed under it.
pub fn blob_parts(blob: &[u8]) -> (parts: Result<([u8; 12], &[u8]), CryptoError>)
    ensures
        match parts {
            Ok((nonce, sealed)) => blob@ == nonce@ + sealed@,
            Err(e) => blob@.len() < NONCE_LEN && e == CryptoError::TooShort,
        },
{
    if blob.len() < NONCE_LEN {
        return Err(CryptoError::TooShort);
    }
    let mut nonce = [0u8;12];
    let mut i: usize = 0;
    while i < NONCE_LEN
        invariant
            i <= NONCE_LEN,
            NONCE_LEN <= blob@.len(),
            forall|j: int| 0 <= j < i ==> nonce@[j] == blob@[j],
        decreases NONCE_LEN - i,
    {
        nonce[i] = blob[i];
        i = i + 1;
    }
    let (_, sealed) = blob.split_at(NONCE_LEN);
    proof {
        assert(blob@ =~= nonce@ + sealed@);
    }
    Ok((nonce, sealed))
}

/// Encrypt `plaintext` with `key` under the given nonce.
pub fn encrypt_with_nonce(key: &[u8; 32], nonce: &[u8; 12], plaintext: &[u8]) -> (blob: Vec<u8>)
    requires
        plaintext@.len() <= MAX_PLAINTEXT,
    ensures
        blob@ == envelope(key@, nonce@, plaintext@),
        blob@ == nonce@ + aes256gcm_seal(key@, nonce@, plaintext@),
        blob@.len() == NONCE_LEN + plaintext@.len() + TAG_LEN,
        opened(key@, blob@) == Ok::<Seq<u8>, CryptoError>(plaintext@),
{
    let sealed = aead_encrypt(key, nonce, plaintext);
    let blob = blob_from(nonce, sealed.as_slice());
    proof {
        assert(blob@.take(NONCE_LEN as int) =~= nonce@);
        assert(blob@.skip(NONCE_LEN as int) =~= sealed@);
    }
    blob
}

/// Encrypt `plaintext` with `key`, prepending a fresh 12-byte random nonce: one
/// that this call drew.
pub fn encrypt(key: &[u8; 32], plaintext: &[u8]) -> (blob: Vec<u8>)
    requires
        plaintext@.len() <= MAX_PLAINTEXT,
    ensures
        blob@.len() == NONCE_LEN + plaintext@.len() + TAG_LEN,
        blob@ == envelope(key@, blob@.take(NONCE_LEN as int), plaintext@),
        exists|nonce: [u8; 12]| #[trigger]
            drawn(nonce) && nonce@ == blob@.take(12) && blob@ == nonce@ + aes256gcm_seal(
                key@,
                nonce@,
                plaintext@,
            ),
        opened(key@, blob@) == Ok::<Seq<u8>, CryptoError>(plaintext@),
{
    let nonce = draw::<12>();
    let blob = encrypt_with_nonce(key, &nonce, plaintext);
    proof {
        assert(blob@.take(NONCE_LEN as int) =~= nonce@);
        assert(drawn(nonce));
    }
    blob
}

/// Decrypt a blob produced by [`encrypt`]. What opens is exactly what
/// sealing the plaintext under the blob's own nonce yields.
pub fn decrypt(key: &[u8; 32], blob: &[u8]) -> (result: Result<Vec<u8>, CryptoError>)
    ensures
        match result {
            Ok(p) => {
                &&& opened(key@, blob@) == Ok::<Seq<u8>, CryptoError>(p@)
                &&& blob@ == envelope(key@, blob@.take(NONCE_LEN as int), p@)
                &&& blob@.len() == NONCE_LEN + p@.len() + TAG_LEN
            },
            Err(e) => opened(key@, blob@) == Err::<Seq<u8>, CryptoError>(e),
        },
{
    let (nonce, sealed) = match blob_parts(blob) {
        Ok(parts) => parts,
        Err(e) => return Err(e),
    };
    proof {
        assert(blob@.take(NONCE_LEN as int) =~= nonce@);
        assert(blob@.skip(NONCE_LEN as int) =~= sealed@);
    }
    match aead_decrypt(key, &nonce, sealed) {
        Some(plaintext) => Ok(plaintext),
        None => Err(CryptoError::DecryptionFailed),
    }
}

/// The whole secret makes the key: no part of it is left out, and nothing but
/// the label is added.
pub proof fn law_whole_secret_makes_the_key(secret: Seq<u8>)
    ensures
        derived_key(secret) == hkdf_sha256(secret, encode_utf8("relaydrop-v1"@)),
{
}

/// The whole code makes the room name, under the label for rooms.
pub proof fn law_whole_code_makes_the_room(code: Seq<char>)
    ensures
        room_of(code) == hex_text(
            hkdf_sha256(encode_utf8(code), encode_utf8("relaydrop-room-v1"@)),
        ),
{
}

/// A digest is that of all the content.
pub proof fn law_digest_is_of_all_content(content: Seq<u8>)
    ensures
        digest_text(content) == hex_text(sha256(content)),
{
}

/// Every byte is written as two digits, from which it can be read again: `0` to
/// `9` stand for themselves and `a` to `f` for ten to fifteen.
pub proof fn law_hex_writes_every_byte(bytes: Seq<u8>, i: int)
    requires
        0 <= i < bytes.len(),
    ensures
        hex_text(bytes).len() == 2 * bytes.len(),
        ({
            let high = hex_text(bytes)[2 * i] as int;
            let low = hex_text(bytes)[2 * i + 1] as int;
            &&& 48 <= high <= 57 || 97 <= high <= 102
            &&& 48 <= low <= 57 || 97 <= low <= 102
            &&& bytes[i] == 16 * (if high <= 57 {
                high - 48
            } else {
                high - 87
            }) + (if low <= 57 {
                low - 48
            } else {
                low - 87
            })
        }),
{
    reveal_strlit("0123456789abcdef");
    let digits = "0123456789abcdef"@;
    assert forall|v: int| 0 <= v < 16 implies #[trigger] digits[v] as int == if v < 10 {
        48 + v
    } else {
        87 + v
    } by {}
    let high = bytes[i] as int / 16;
    let low = bytes[i] as int % 16;
    assert(hex_text(bytes)[2 * i] == digits[high]);
    assert((2 * i + 1) / 2 == i && (2 * i + 1) % 2 == 1);
    assert(hex_text(bytes)[2 * i + 1] == digits[low]);
}

/// Different bytes are written differently.
pub proof fn law_hex_tells_bytes_apart(a: Seq<u8>, b: Seq<u8>)
    requires
        hex_text(a) == hex_text(b),
    ensures
        a == b,
{
    assert(a.len() == b.len()) by {
        assert(hex_text(a).len() == 2 * a.len());
        assert(hex_text(b).len() == 2 * b.len());
    }
    assert forall|i: int| 0 <= i < a.len() implies a[i] == b[i] by {
        law_hex_writes_every_byte(a, i);
        law_hex_writes_every_byte(b, i);
    }
    assert(a =~= b);
}

/// A sealed blob is its nonce and the whole plaintext, sealed under that nonce
/// and the whole key.
pub proof fn law_blob_seals_all_of_it(key: Seq<u8>, nonce: Seq<u8>, plaintext: Seq<u8>)
    ensures
        envelope(key, nonce, plaintext) == nonce + aes256gcm_seal(key, nonce, plaintext),
{
}

/// Opening a blob, of whatever length, is opening what follows the nonce under
/// the key and that nonce; it is too short exactly where no whole nonce is there.
pub proof fn law_opening_undoes_the_layout(key: Seq<u8>, nonce: Seq<u8>, sealed: Seq<u8>)
    requires
        nonce.len() == 12,
    ensures
        match aes256gcm_open(key, nonce, sealed) {
            Some(plaintext) => opened(key, nonce + sealed) == Ok::<Seq<u8>, CryptoError>(plaintext),
            None => opened(key, nonce + sealed) == Err::<Seq<u8>, CryptoError>(
                CryptoError::DecryptionFailed,
            ),
        },
        forall|blob: Seq<u8>|
            blob.len() < 12 <==> #[trigger] opened(key, blob) == Err::<Seq<u8>, CryptoError>(
                CryptoError::TooShort,
            ),
{
    let blob = nonce + sealed;
    assert(blob.take(NONCE_LEN as int) =~= nonce);
    assert(blob.skip(NONCE_LEN as int) =~= sealed);
}

/// What can be sealed at once is bounded by the cipher alone: 2^36 - 32 bytes.
pub proof fn law_limit_is_the_ciphers()
    ensures
        MAX_PLAINTEXT == 0x10_0000_0000int - 32,
        NONCE_LEN == 12,
        TAG_LEN == 16,
{
}

} // verus!

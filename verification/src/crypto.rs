//! The cryptographic primitives of the chat, each a call into the crate that provides it.
use vstd::prelude::*;
use aes_gcm::aead::{Aead, KeyInit};
use aes_gcm::{Aes256Gcm, Nonce};
use hkdf::Hkdf;
use k256::ecdsa::signature::{Signer, Verifier};
use k256::ecdsa::{Signature, SigningKey, VerifyingKey};
use magic_crypt::{MagicCrypt256, MagicCryptTrait};
use rand_chacha::ChaCha20Rng;
use rand_core::{OsRng, RngCore, SeedableRng};
use sha2::Sha256;
use x25519_dalek::{PublicKey, StaticSecret};

verus! {

/// Largest plaintext, in bytes, that AES-256-GCM encrypts (`aes_gcm::P_MAX`).
pub const AES_GCM_P_MAX: u64 = 0x10_0000_0000;

/// Whether AES-256-GCM encrypts a plaintext of `len` bytes: at most `P_MAX` of them, and
/// room in memory for the ciphertext with its 16-byte tag.
pub open spec fn aes_plaintext_ok(len: nat) -> bool {
    len <= AES_GCM_P_MAX && len + 16 <= isize::MAX
}

/// The AES-256-GCM ciphertext (tag appended) of `plaintext` under `key` and `nonce`.
pub uninterp spec fn aes256gcm_seal(key: Seq<u8>, nonce: Seq<u8>, plaintext: Seq<u8>) -> Seq<u8>;

/// The plaintext that AES-256-GCM recovers from `ciphertext` under `key` and `nonce`, or
/// `None` when the tag does not authenticate it.
pub uninterp spec fn aes256gcm_open(key: Seq<u8>, nonce: Seq<u8>, ciphertext: Seq<u8>) -> Option<Seq<u8>>;

/// Encrypts `plaintext` with AES-256-GCM (`Aes256Gcm::encrypt`, no associated data).
///
/// Trusted: it succeeds exactly for plaintexts of at most `P_MAX` bytes (the ciphertext's
/// buffer must fit in memory, hence the bound in `requires`); the result is the
/// name `aes256gcm_seal` of the arguments, the plaintext's length plus the 16 bytes of the
/// tag that `encrypt` appends; and decrypting it under the same key and nonce gives the
/// plaintext back (the AEAD's correctness, as the crate documents it).
#[verifier::external_body]
pub(crate) fn aes256gcm_encrypt(key: &[u8; 32], nonce: &[u8; 12], plaintext: &[u8]) -> (res: Option<Vec<u8>>)
    requires
        plaintext@.len() + 16 <= isize::MAX,
    ensures
        res is Some <==> plaintext@.len() <= AES_GCM_P_MAX,
        res matches Some(c) ==> c@ == aes256gcm_seal(key@, nonce@, plaintext@) && aes256gcm_open(
            key@,
            nonce@,
            c@,
        ) == Some(plaintext@) && c@.len() == plaintext@.len() + 16 && c@.len() <= isize::MAX,
{
    Aes256Gcm::new(key.into()).encrypt(Nonce::from_slice(nonce), plaintext).ok()
}

/// Decrypts and authenticates `ciphertext` with AES-256-GCM (`Aes256Gcm::decrypt`).
///
/// Trusted: the result is the name `aes256gcm_open` of the arguments.
#[verifier::external_body]
pub(crate) fn aes256gcm_decrypt(key: &[u8; 32], nonce: &[u8; 12], ciphertext: &[u8]) -> (res: Option<Vec<u8>>)
    ensures
        res matches Some(p) ==> aes256gcm_open(key@, nonce@, ciphertext@) == Some(p@) && p@.len()
            <= isize::MAX,
        res is None ==> aes256gcm_open(key@, nonce@, ciphertext@) is None,
{
    Aes256Gcm::new(key.into()).decrypt(Nonce::from_slice(nonce), ciphertext).ok()
}

/// The `len` bytes of output keying material that HKDF-SHA256 expands from `info` after
/// extracting with `salt` from the input keying material `ikm`.
pub uninterp spec fn hkdf_sha256(salt: Seq<u8>, ikm: Seq<u8>, info: Seq<u8>, len: nat) -> Seq<u8>;

/// HKDF-SHA256 (`Hkdf::<Sha256>::new(Some(salt), ikm)` then `expand(info, ..)`) into 76 bytes.
///
/// Trusted: the bytes are the name `hkdf_sha256` of the arguments; 76 bytes is within what
/// `expand` accepts, so it does not fail.
#[verifier::external_body]
pub(crate) fn hkdf_sha256_76(salt: &[u8], ikm: &[u8; 32], info: &[u8; 32]) -> (res: [u8; 76])
    ensures
        res@ == hkdf_sha256(salt@, ikm@, info@, 76),
{
    let mut okm = [0u8; 76];
    Hkdf::<Sha256>::new(Some(salt), ikm).expand(info, &mut okm).unwrap();
    okm
}

/// The X25519 public key of the secret scalar bytes `secret`.
pub uninterp spec fn x25519_public(secret: Seq<u8>) -> Seq<u8>;

/// The X25519 shared secret of the secret `secret` with the public key `public`.
pub uninterp spec fn x25519_shared(secret: Seq<u8>, public: Seq<u8>) -> Seq<u8>;

/// The public key that belongs to `secret` (`PublicKey::from(&StaticSecret::from(secret))`).
///
/// Trusted: the bytes are the name `x25519_public` of the secret.
#[verifier::external_body]
pub(crate) fn x25519_public_key(secret: &[u8; 32]) -> (res: [u8; 32])
    ensures
        res@ == x25519_public(secret@),
{
    PublicKey::from(&StaticSecret::from(*secret)).to_bytes()
}

/// Diffie-Hellman of `secret` with `public` (`StaticSecret::diffie_hellman`).
///
/// Trusted: the bytes are the name `x25519_shared` of the arguments, and both sides of an
/// exchange compute the same secret: when `public` belongs to some secret `other`, the result
/// is what `other` computes with the public key of `secret` (the agreement that the crate
/// documents), for every 32-byte `other`.
#[verifier::external_body]
pub(crate) fn x25519_diffie_hellman(secret: &[u8; 32], public: &[u8; 32]) -> (res: [u8; 32])
    ensures
        res@ == x25519_shared(secret@, public@),
        forall|other: Seq<u8>|
            #![trigger x25519_public(other)]
            other.len() == 32 && public@ == x25519_public(other) ==> res@ == x25519_shared(other, x25519_public(secret@)),
{
    StaticSecret::from(*secret).diffie_hellman(&PublicKey::from(*public)).to_bytes()
}

/// The first 32 bytes of the ChaCha20 stream seeded with `seed` through `seed_from_u64`.
pub uninterp spec fn chacha20_seeded_bytes(seed: u64) -> Seq<u8>;

/// Secret key bytes drawn from `ChaCha20Rng::seed_from_u64(seed)`, as
/// `EphemeralSecret::new` draws them.
///
/// Trusted: the bytes are the name `chacha20_seeded_bytes` of the seed.
#[verifier::external_body]
pub(crate) fn seeded_secret(seed: u64) -> (res: [u8; 32])
    ensures
        res@ == chacha20_seeded_bytes(seed),
{
    let mut rng = ChaCha20Rng::seed_from_u64(seed);
    let mut bytes = [0u8; 32];
    rng.fill_bytes(&mut bytes);
    bytes
}

/// 32 bytes from the operating system's random source (`OsRng`).
///
/// Nothing is stated of the bytes: they are random.
#[verifier::external_body]
pub(crate) fn random_secret() -> (res: [u8; 32]) {
    let mut bytes = [0u8; 32];
    OsRng.fill_bytes(&mut bytes);
    bytes
}

/// Whether ECDSA over secp256k1 accepts `signature` on `msg` under the SEC1-encoded
/// `public_key`; `None` where the key or the signature cannot be read.
pub uninterp spec fn k256_verify_spec(public_key: Seq<u8>, signature: Seq<u8>, msg: Seq<u8>) -> Option<bool>;

/// Verifies an ECDSA/secp256k1 signature (`VerifyingKey::from_sec1_bytes`,
/// `Signature::from_slice`, then `Verifier::verify`).
///
/// Trusted: the result is the name `k256_verify_spec` of the arguments.
#[verifier::external_body]
pub(crate) fn k256_verify(public_key: &[u8], signature: &[u8], msg: &[u8]) -> (res: Option<bool>)
    ensures
        res == k256_verify_spec(public_key@, signature@, msg@),
{
    let key = VerifyingKey::from_sec1_bytes(public_key).ok()?;
    let sig = Signature::from_slice(signature).ok()?;
    Some(key.verify(msg, &sig).is_ok())
}

/// The 64-byte ECDSA/secp256k1 signature (`r || s`) of `msg` under the secret scalar bytes
/// `secret`, with the nonce drawn deterministically (RFC 6979); `None` where the secret is
/// not a scalar that the crate accepts or signing fails.
pub uninterp spec fn k256_sign_spec(secret: Seq<u8>, msg: Seq<u8>) -> Option<Seq<u8>>;

/// Signs `msg` (`SigningKey::from_slice`, then `Signer::try_sign`, then the signature's bytes).
///
/// Trusted: the result is the name `k256_sign_spec` of the arguments (the crate signs with
/// an RFC 6979 nonce, so the signature depends on them alone), and a signature is 64 bytes.
#[verifier::external_body]
pub(crate) fn k256_sign(secret: &[u8], msg: &[u8]) -> (res: Option<Vec<u8>>)
    ensures
        match res {
            Some(sig) => k256_sign_spec(secret@, msg@) == Some(sig@) && sig@.len() == 64,
            None => k256_sign_spec(secret@, msg@) is None,
        },
{
    let key = SigningKey::from_slice(secret).ok()?;
    let sig: Signature = key.try_sign(msg).ok()?;
    Some(sig.to_vec())
}

/// The Base64 text that `magic-crypt` makes of `plain` under the key string `key` with its
/// 256-bit cipher and no IV (AES-256-CBC, PKCS#7 padding, the key hashed with SHA-256, the
/// IV zero).
pub uninterp spec fn magic256_encrypt_spec(key: Seq<char>, plain: Seq<char>) -> Seq<char>;

/// What `magic-crypt` with its 256-bit cipher and no IV recovers from the Base64 text
/// `text` under the key string `key`; `None` where the text is not Base64, does not decrypt
/// or is not UTF-8.
pub uninterp spec fn magic256_decrypt_spec(key: Seq<char>, text: Seq<char>) -> Option<Seq<char>>;

/// Encrypts `plain` (`MagicCrypt256::new(key, None)`, then `encrypt_str_to_base64`).
///
/// Trusted: the result is the name `magic256_encrypt_spec` of the arguments (the cipher,
/// its key and IV are fixed by them), and decrypting it under the same key gives `plain`
/// back (CBC with PKCS#7 padding undoes itself, as the crate's examples show).
#[verifier::external_body]
pub(crate) fn magic256_encrypt(key: &str, plain: &str) -> (res: String)
    ensures
        res@ == magic256_encrypt_spec(key@, plain@),
        magic256_decrypt_spec(key@, res@) == Some(plain@),
{
    MagicCrypt256::new(key, None::<String>).encrypt_str_to_base64(plain)
}

/// Decrypts the Base64 text `text` (`MagicCrypt256::new(key, None)`, then
/// `decrypt_base64_to_string`); `None` where the crate returns an error.
///
/// Trusted: the result is the name `magic256_decrypt_spec` of the arguments.
#[verifier::external_body]
pub(crate) fn magic256_decrypt(key: &str, text: &str) -> (res: Option<String>)
    ensures
        match res {
            Some(p) => magic256_decrypt_spec(key@, text@) == Some(p@),
            None => magic256_decrypt_spec(key@, text@) is None,
        },
{
    MagicCrypt256::new(key, None::<String>).decrypt_base64_to_string(text).ok()
}

}

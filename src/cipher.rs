use aes_gcm::aead::{Aead, NewAead};
use aes_gcm::{Aes256Gcm, Key, Nonce};
use blake2::digest::consts::U32;
use blake2::{Blake2b, Digest};
use vstd::prelude::*;

verus! {

/// The longest plaintext sealed here, in bytes (2^36 - 32): GCM's limit of 2^39 - 256
/// bits. Past it the cipher's 32-bit block counter would wrap, and aes-gcm's
/// keystream panics on that.
pub const SEAL_MAX: u64 = 68719476704;

/// The 32-byte BLAKE2b digest of a byte string.
pub uninterp spec fn blake2b256_of(data: Seq<u8>) -> Seq<u8>;

/// The AES-256-GCM sealing (ciphertext followed by its tag) of `plain`
/// under `key` and `nonce`, with no associated data.
pub uninterp spec fn seal_of(key: Seq<u8>, nonce: Seq<u8>, plain: Seq<u8>) -> Seq<u8>;

/// Relies on blake2's `Blake2b<U32>` digest: a function of the input alone, 32 bytes long.
#[verifier::external_body]
pub(crate) fn blake2b_256(data: &[u8]) -> (r: Vec<u8>)
    ensures
        r@ == blake2b256_of(data@),
        r@.len() == 32,
{
    Blake2b::<U32>::digest(data).to_vec()
}

/// Relies on aes-gcm's `Aead::encrypt` for `Aes256Gcm`: it fails only on a
/// plaintext over its `P_MAX` of 2^36 bytes, and appends a 16-byte tag to the
/// ciphertext.
#[verifier::external_body]
pub(crate) fn aes256gcm_seal(key: &[u8], nonce: &[u8], plain: &[u8]) -> (r: Option<Vec<u8>>)
    requires
        key@.len() == 32,
        nonce@.len() == 12,
        plain@.len() <= SEAL_MAX,
    ensures
        r is Some,
        r matches Some(c) ==> c@ == seal_of(key@, nonce@, plain@) && c@.len() == plain@.len()
            + 16,
{
    Aes256Gcm::new(Key::from_slice(key)).encrypt(Nonce::from_slice(nonce), plain).ok()
}

/// Relies on aes-gcm's `Aead::decrypt` for `Aes256Gcm`: it returns a plaintext
/// only when the tag verifies, that is when the input is the sealing of that
/// plaintext, which is the input less its 16-byte tag; and it opens every
/// sealing that `Aead::encrypt` produces.
#[verifier::external_body]
pub(crate) fn aes256gcm_open(key: &[u8], nonce: &[u8], sealed: &[u8]) -> (r: Option<Vec<u8>>)
    requires
        key@.len() == 32,
        nonce@.len() == 12,
        sealed@.len() <= SEAL_MAX + 16,
    ensures
        r matches Some(p) ==> sealed@ == seal_of(key@, nonce@, p@) && p@.len() + 16
            == sealed@.len(),
        forall|p: Seq<u8>|
            p.len() <= SEAL_MAX && sealed@ == #[trigger] seal_of(key@, nonce@, p) ==> r is Some
                && r->0@ == p,
{
    Aes256Gcm::new(Key::from_slice(key)).decrypt(Nonce::from_slice(nonce), sealed).ok()
}

} // verus!

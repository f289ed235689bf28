//! The library's contact points with outside crates: randomness (`rand`,
//! `getrandom`), hashing (`blake3`), constant-time comparison (`subtle`),
//! memory wiping (`zeroize`) and authenticated encryption (`aes-gcm`).
//! Every item here is trusted: its contract is taken as given, not proved.

use vstd::prelude::*;
use crate::parameters::{PUBKEY_BYTES, SEED_BYTES, SESSION_KEY_BYTES};
use aes_gcm::{AeadCore, AeadInPlace, Aes256Gcm, KeyInit};
use rand::{Rng, RngCore};
use subtle::ConstantTimeEq;
use zeroize::Zeroize;

verus! {

/// The thread-local generator of `rand`, carried through opaquely.
#[verifier::external_type_specification]
#[verifier::external_body]
pub struct ExThreadRng(rand::rngs::ThreadRng);

/// The operating-system generator of `rand`, carried through opaquely.
#[verifier::external_type_specification]
#[verifier::external_body]
pub struct ExOsRng(rand::rngs::OsRng);

/// The error of `getrandom`.
#[verifier::external_type_specification]
#[verifier::external_body]
pub struct ExGetrandomError(getrandom::Error);

/// The (opaque) error of the `aes-gcm` AEAD.
#[verifier::external_type_specification]
#[verifier::external_body]
pub struct ExAeadError(aes_gcm::Error);

/// `Rng::gen_range(lo..hi)` on the thread generator: documented to return a
/// value of the range and to panic on an empty range, which `requires` excludes.
/// The generator panics if reseeding from the operating system fails, which
/// depends on the environment and on no argument.
#[verifier::external_body]
pub(crate) fn thread_gen_range(rng: &mut rand::rngs::ThreadRng, lo: usize, hi: usize) -> (r: usize)
    requires
        lo < hi,
    ensures
        lo <= r < hi,
{
    rng.gen_range(lo..hi)
}

/// `Rng::gen_range(lo..hi)` on bytes, thread generator.
/// The generator panics if reseeding from the operating system fails, which
/// depends on the environment and on no argument.
#[verifier::external_body]
pub(crate) fn thread_gen_range_u8(rng: &mut rand::rngs::ThreadRng, lo: u8, hi: u8) -> (r: u8)
    requires
        lo < hi,
    ensures
        lo <= r < hi,
{
    rng.gen_range(lo..hi)
}

/// `Rng::gen::<u8>()` on the thread generator; any byte.
/// The generator panics if reseeding from the operating system fails, which
/// depends on the environment and on no argument.
#[verifier::external_body]
pub(crate) fn thread_gen_u8(rng: &mut rand::rngs::ThreadRng) -> u8 {
    rng.gen::<u8>()
}

/// `RngCore::fill_bytes` on the thread generator; nothing is claimed of the bytes.
/// The generator panics if reseeding from the operating system fails, which
/// depends on the environment and on no argument.
#[verifier::external_body]
pub(crate) fn thread_fill_bytes(rng: &mut rand::rngs::ThreadRng, buf: &mut [u8; PUBKEY_BYTES]) {
    rng.fill_bytes(buf)
}

/// `Rng::gen_range(lo..hi)` on the operating-system generator.
/// It panics if the operating system's entropy source fails, which depends
/// on the environment and on no argument.
#[verifier::external_body]
pub(crate) fn os_gen_range(rng: &mut rand::rngs::OsRng, lo: usize, hi: usize) -> (r: usize)
    requires
        lo < hi,
    ensures
        lo <= r < hi,
{
    rng.gen_range(lo..hi)
}

/// `Rng::gen_range(lo..hi)` on bytes, operating-system generator.
/// It panics if the operating system's entropy source fails, which depends
/// on the environment and on no argument.
#[verifier::external_body]
pub(crate) fn os_gen_range_u8(rng: &mut rand::rngs::OsRng, lo: u8, hi: u8) -> (r: u8)
    requires
        lo < hi,
    ensures
        lo <= r < hi,
{
    rng.gen_range(lo..hi)
}

/// `Rng::gen::<u8>()` on the operating-system generator; any byte.
/// It panics if the operating system's entropy source fails, which depends
/// on the environment and on no argument.
#[verifier::external_body]
pub(crate) fn os_gen_u8(rng: &mut rand::rngs::OsRng) -> u8 {
    rng.gen::<u8>()
}

/// `RngCore::fill_bytes` on the operating-system generator; nothing is claimed of the bytes.
/// It panics if the operating system's entropy source fails, which depends
/// on the environment and on no argument.
#[verifier::external_body]
pub(crate) fn os_fill_bytes(rng: &mut rand::rngs::OsRng, buf: &mut [u8; PUBKEY_BYTES]) {
    rng.fill_bytes(buf)
}

/// `rand::thread_rng()`, the thread-local generator; nothing is claimed of it.
#[verifier::external_body]
pub(crate) fn thread_rng() -> rand::rngs::ThreadRng {
    rand::thread_rng()
}

/// `rand::rngs::OsRng` (a unit value); nothing is claimed of it.
#[verifier::external_body]
pub(crate) fn os_rng() -> rand::rngs::OsRng {
    rand::rngs::OsRng
}

/// `getrandom::getrandom` on a seed buffer; nothing is claimed of the bytes.
#[verifier::external_body]
pub(crate) fn fill_os_entropy(buf: &mut [u8; SEED_BYTES]) -> Result<(), getrandom::Error> {
    getrandom::getrandom(buf)
}

/// Describes a `getrandom` failure (its `Display` text after a fixed prefix).
#[verifier::external_body]
pub(crate) fn describe_entropy_error(e: &getrandom::Error) -> String {
    format!("OS entropy: {}", e)
}

/// Describes an AEAD failure (its `Display` text after a fixed prefix).
#[verifier::external_body]
pub(crate) fn describe_aead_error(e: &aes_gcm::Error) -> String {
    format!("AES-GCM encrypt: {}", e)
}

/// Message for a bit string of the wrong length.
#[verifier::external_body]
pub(crate) fn bits_length_message(expected: usize, got: usize) -> String {
    format!("expected {} bits, got {}", expected, got)
}

/// Message for an entry of a bit string that is neither 0 nor 1.
#[verifier::external_body]
pub(crate) fn bit_value_message(index: usize, value: u8) -> String {
    format!("bit {} is {} (must be 0 or 1)", index, value)
}

/// Message for an over-long steganographic payload.
#[verifier::external_body]
pub(crate) fn message_length_message(len: usize, max: usize) -> String {
    format!("Message too long: {} bytes (max {})", len, max)
}

/// `std::hint::black_box`: documented as the identity function (it only
/// hides the value from the optimizer).
#[verifier::external_body]
pub(crate) fn black_box_u64(x: u64) -> (r: u64)
    ensures
        r == x,
{
    std::hint::black_box(x)
}

/// The BLAKE3 digest (32 bytes) of a byte string.
pub uninterp spec fn blake3_digest(input: Seq<u8>) -> Seq<u8>;

/// `blake3::hash`: the 32-byte BLAKE3 digest of `input`, a function of the input alone.
#[verifier::external_body]
pub(crate) fn blake3_hash(input: &[u8]) -> (r: [u8; SESSION_KEY_BYTES])
    ensures
        r@ == blake3_digest(input@),
{
    blake3::hash(input).into()
}

/// `subtle::ConstantTimeEq::ct_eq` on two packed elements: documented to
/// return true exactly when the two byte strings are equal.
#[verifier::external_body]
pub(crate) fn ct_eq_packed(a: &[u8; PUBKEY_BYTES], b: &[u8; PUBKEY_BYTES]) -> (r: bool)
    ensures
        r == (a@ == b@),
{
    a.ct_eq(b).into()
}

/// `zeroize::Zeroize::zeroize` on a byte array: every byte becomes 0 (with
/// writes the compiler may not drop). It never panics.
#[verifier::external_body]
pub(crate) fn zeroize_array<const N: usize>(buf: &mut [u8; N])
    ensures
        forall|i: int| 0 <= i < N ==> #[trigger] final(buf)@[i] == 0,
    opens_invariants none
    no_unwind
{
    buf.zeroize()
}

/// `zeroize::Zeroize::zeroize` on an array of words: every word becomes 0
/// (with writes the compiler may not drop). It never panics.
#[verifier::external_body]
pub(crate) fn zeroize_words<const N: usize>(buf: &mut [u64; N])
    ensures
        forall|i: int| 0 <= i < N ==> #[trigger] final(buf)@[i] == 0,
    opens_invariants none
    no_unwind
{
    buf.zeroize()
}

/// `zeroize::Zeroize::zeroize` on a vector of positions: the contents are
/// wiped and the vector is cleared. It never panics.
#[verifier::external_body]
pub(crate) fn zeroize_positions(v: &mut Vec<usize>)
    ensures
        final(v)@.len() == 0,
    opens_invariants none
    no_unwind
{
    v.zeroize()
}

/// `zeroize::Zeroize::zeroize` on a byte vector: the contents are wiped and
/// the vector is cleared.
#[verifier::external_body]
pub(crate) fn zeroize_vec(v: &mut Vec<u8>)
    ensures
        final(v)@.len() == 0,
{
    v.zeroize()
}

/// AES-256-GCM encryption (empty associated data) of `msg`: the ciphertext
/// followed by the 16-byte tag, a function of key, nonce and message.
pub uninterp spec fn aes256gcm_seal(key: Seq<u8>, nonce: Seq<u8>, msg: Seq<u8>) -> Seq<u8>;

/// AES-256-GCM decryption (empty associated data): the plaintext when the
/// tag verifies, `None` otherwise.
pub uninterp spec fn aes256gcm_open(key: Seq<u8>, nonce: Seq<u8>, ct: Seq<u8>, tag: Seq<u8>) -> Option<Seq<u8>>;

/// `Aes256Gcm::encrypt_in_place_detached` with empty associated data. The
/// source refuses only a message longer than 2^36 bytes; otherwise the
/// ciphertext has the message's length and, followed by the tag, is the
/// named seal of the arguments, and decryption with the same key and nonce
/// (which recomputes the same tag and applies the same keystream) opens it
/// back to the message.
#[verifier::external_body]
pub(crate) fn aes256gcm_encrypt(key: &[u8; SESSION_KEY_BYTES], nonce: &[u8; 12], msg: &[u8]) -> (r:
    Result<(Vec<u8>, [u8; 16]), aes_gcm::Error>)
    ensures
        r is Err <==> msg@.len() > 0x10_0000_0000,
        r matches Ok((c, t)) ==> c@.len() == msg@.len() && c@ + t@ == aes256gcm_seal(
            key@,
            nonce@,
            msg@,
        ),
        r matches Ok((c, t)) ==> aes256gcm_open(key@, nonce@, c@, t@) == Some(msg@),
{
    let cipher = Aes256Gcm::new(key.into());
    let mut buf = msg.to_vec();
    match cipher.encrypt_in_place_detached(nonce.into(), b"", &mut buf) {
        Ok(tag) => Ok((buf, tag.into())),
        Err(e) => Err(e),
    }
}

/// `Aes256Gcm::decrypt_in_place_detached` with empty associated data: the
/// plaintext (of the ciphertext's length) when the tag verifies, as named.
#[verifier::external_body]
pub(crate) fn aes256gcm_decrypt(
    key: &[u8; SESSION_KEY_BYTES],
    nonce: &[u8; 12],
    ct: &[u8],
    tag: &[u8; 16],
) -> (r: Option<Vec<u8>>)
    ensures
        r matches Some(p) ==> p@.len() == ct@.len(),
        r is Some <==> aes256gcm_open(key@, nonce@, ct@, tag@) is Some,
        r matches Some(p) ==> aes256gcm_open(key@, nonce@, ct@, tag@) == Some(p@),
{
    let cipher = Aes256Gcm::new(key.into());
    let mut buf = ct.to_vec();
    match cipher.decrypt_in_place_detached(nonce.into(), b"", &mut buf, tag.into()) {
        Ok(()) => Some(buf),
        Err(_) => None,
    }
}

/// `Aes256Gcm::generate_nonce` from the operating-system generator; nothing
/// is claimed of the bytes.
/// It panics if the operating system's entropy source fails, which depends
/// on the environment and on no argument.
#[verifier::external_body]
pub(crate) fn random_nonce(rng: &mut rand::rngs::OsRng) -> [u8; 12] {
    Aes256Gcm::generate_nonce(rng).into()
}

} // verus!

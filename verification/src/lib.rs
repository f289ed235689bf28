//! QC-MDPC Niederreiter KEM with steganographic encoding, with machine-checked contracts.

use vstd::prelude::*;

pub mod bits;
pub mod decoder;
pub mod error;
pub mod gf2x;
pub mod kem;
pub mod keygen;
pub mod matrix;
pub mod parameters;
pub mod polynomial;
pub mod primitives;
pub mod ring;
pub mod source;
pub mod stego;
pub mod units;
pub mod utils;

pub use error::{ArcError, ArcResult};
pub use parameters::{
    AES_CTR_NONCE_BYTES, BLACK_ONLY_ITERS, CHI_SQUARED_THRESHOLD_MILLI, DFR_TRIALS, ERROR_WEIGHT,
    GRAY_COUNT_MIN, M, MAX_ITER, MAX_PAYLOAD_BYTES, N, PADDING_DIGITS, PUBKEY_BYTES, ROW_WEIGHT,
    SEED_BYTES, SESSION_KEY_BYTES, SUPERBLOCK_DIGITS, SYNDROME_BYTES, TOTAL_ROW_WEIGHT, T_BLACK_FINAL,
    T_BLACK_INIT, T_GRAY_FINAL, T_GRAY_INIT,
};
pub use kem::KemCiphertext;
pub use keygen::KeyPair;
pub use polynomial::Polynomial;
use kem::{encapsulates, error_draws_valid, error_from_draws, kem_key_for};
use utils::derived_poly;

verus! {

/// Encapsulates to a public key (see [`kem::encapsulate`]).
pub fn encapsulate(public_key: &Polynomial) -> (r: (KemCiphertext, [u8; SESSION_KEY_BYTES]))
    ensures
        exists|js: Seq<int>| #[trigger] error_draws_valid(js) && encapsulates(
            public_key@,
            r.0.syndrome@,
            r.1@,
            error_from_draws(js).0,
            error_from_draws(js).1,
        ),
{
    kem::encapsulate(public_key)
}

/// Decapsulates with a secret seed (see [`kem::decapsulate`]); never fails.
pub fn decapsulate(seed: &[u8; SEED_BYTES], ciphertext: &KemCiphertext) -> (r: ArcResult<[u8; SESSION_KEY_BYTES]>)
    ensures
        r matches Ok(k) && k@ == kem_key_for(seed@, derived_poly(seed@, 0), derived_poly(seed@, 1), ciphertext.syndrome@),
{
    kem::decapsulate(seed, ciphertext)
}

} // verus!

//! System constants of the QC-MDPC steganographic KEM.

use vstd::prelude::*;

verus! {

/// Circulant dimension (a power of two).
pub const M: usize = 16384;

/// Code length, two circulant halves.
pub const N: usize = 2 * M;

/// Number of ones in each secret circulant row.
pub const ROW_WEIGHT: usize = 45;

/// Total row weight of the parity-check matrix `[H0 | H1]`.
pub const TOTAL_ROW_WEIGHT: usize = 90;

/// Hamming weight of the error vector.
pub const ERROR_WEIGHT: usize = 134;

/// Initial black threshold of the bit-flipping decoder.
pub const T_BLACK_INIT: u8 = 40;

/// Final black threshold of the bit-flipping decoder.
pub const T_BLACK_FINAL: u8 = 20;

/// Initial gray threshold of the bit-flipping decoder.
pub const T_GRAY_INIT: u8 = 30;

/// Final gray threshold of the bit-flipping decoder.
pub const T_GRAY_FINAL: u8 = 12;

/// Minimum gray count before a gray bit may be flipped.
pub const GRAY_COUNT_MIN: u16 = 2;

/// Number of leading iterations that only perform black flips.
pub const BLACK_ONLY_ITERS: usize = 7;

/// Number of decoder iterations.
pub const MAX_ITER: usize = 15;

/// Secret seed size in bytes.
pub const SEED_BYTES: usize = 32;

/// Packed size of a ring element (public key) in bytes.
pub const PUBKEY_BYTES: usize = M / 8;

/// Packed size of a syndrome (ciphertext) in bytes.
pub const SYNDROME_BYTES: usize = M / 8;

/// Session key size in bytes.
pub const SESSION_KEY_BYTES: usize = 32;

/// Nonce size of the counter-mode variant (kept for API compatibility).
pub const AES_CTR_NONCE_BYTES: usize = 16;

/// Largest message that can be hidden in one superblock.
pub const MAX_PAYLOAD_BYTES: usize = 8000;

/// Number of uniformly random padding digits after the mask region.
pub const PADDING_DIGITS: usize = 5000;

/// Number of decimal digits in one steganographic superblock.
pub const SUPERBLOCK_DIGITS: usize = 2 * M + PADDING_DIGITS;

/// Critical value of the chi-squared uniformity test (df = 9, p = 0.05),
/// in thousandths: the threshold is 16.919.
pub const CHI_SQUARED_THRESHOLD_MILLI: u64 = 16919;

/// Number of decoding trials performed while validating a key.
pub const DFR_TRIALS: usize = 270;

} // verus!

//! Steganographic layer: the Niederreiter mask `c + e` (with `c` a random
//! codeword) and an AES-256-GCM payload packed into decimal digits, and the
//! way back with implicit rejection.
//!
//! Digit `i` of the mask region carries mask bit `i`: a clear bit gives a
//! small digit 0-7 that carries three payload bits, a set bit gives a large
//! digit 8 or 9 that carries one. The padding region holds random digits.

use vstd::prelude::*;
use crate::bits::{bytes_to_bits, count_true, lemma_byte_facts, lemma_byte_shift, lemma_count_true_le};
use crate::decoder::{bgf_run, decode, syndrome};
use crate::error::{ArcError, ArcResult};
use crate::kem::{byte_mask, error_draws_valid, error_from_draws, generate_error_with, lemma_pack, pack, select_key};
use crate::keygen::{public_key_of, trial_recovers, KeyPair};
use crate::matrix::Circulant;
use crate::parameters::{
    CHI_SQUARED_THRESHOLD_MILLI, ERROR_WEIGHT, M, MAX_ITER, MAX_PAYLOAD_BYTES, N, PADDING_DIGITS, PUBKEY_BYTES,
    SEED_BYTES, SESSION_KEY_BYTES, SUPERBLOCK_DIGITS,
};
use crate::polynomial::Polynomial;
use crate::source::{
    byte_values, draws_since, extends, lemma_extends, values_bytes, OsSource, RandomSource,
};
use crate::primitives::{
    aes256gcm_decrypt, aes256gcm_encrypt, aes256gcm_open, aes256gcm_seal, blake3_digest, blake3_hash,
    message_length_message, zeroize_vec,
};
use crate::ring::{
    lemma_ring_mul_associative, lemma_ring_mul_commutative, lemma_ring_mul_distributes, ring_add,
    ring_mul,
};
use crate::utils::{derive_secret_polynomials, derived_poly, lemma_derived_weight, le32};
use vstd::slice::{slice_subrange, slice_to_vec};

verus! {

/// Number of attempts at a digit block whose padding passes the uniformity test.
pub const MAX_ENCODE_ATTEMPTS: usize = 100;

/// Number of filler bits drawn for an attempt: enough for every digit of the
/// mask region to carry three bits.
pub const FILLER_BITS: usize = 6 * M;

/// The bytes of the domain tag `ARCB-STEGO-KEY-V1`.
pub open spec fn stego_key_tag() -> Seq<u8> {
    seq![65u8, 82, 67, 66, 45, 83, 84, 69, 71, 79, 45, 75, 69, 89, 45, 86, 49]
}

/// The bytes of the domain tag `ARCB-STEGO-REJ-V1`.
pub open spec fn stego_reject_tag() -> Seq<u8> {
    seq![65u8, 82, 67, 66, 45, 83, 84, 69, 71, 79, 45, 82, 69, 74, 45, 86, 49]
}

/// What the session key of an error `(e0, e1)` hashes.
pub open spec fn stego_key_input(e0: Seq<bool>, e1: Seq<bool>) -> Seq<u8> {
    stego_key_tag() + pack(e0) + pack(e1)
}

/// The session key of an error `(e0, e1)`.
pub open spec fn stego_key(e0: Seq<bool>, e1: Seq<bool>) -> Seq<u8> {
    blake3_digest(stego_key_input(e0, e1))
}

/// Number of entries of `s` equal to `d`.
pub open spec fn digit_count(s: Seq<u8>, d: u8) -> nat
    decreases s.len(),
{
    if s.len() == 0 {
        0
    } else {
        digit_count(s.drop_last(), d) + (if s.last() == d { 1nat } else { 0nat })
    }
}

/// `sum over d < k of (10 * count(d) - n)^2`, ten times the chi-squared
/// statistic of the digit counts against the uniform law, times `n`.
pub open spec fn chi_sum(s: Seq<u8>, k: int) -> int
    decreases k,
{
    if k <= 0 {
        0
    } else {
        let diff = 10 * digit_count(s, (k - 1) as u8) - s.len();
        chi_sum(s, k - 1) + diff * diff
    }
}

/// The chi-squared statistic of the digit counts (nine degrees of freedom)
/// is at most 16.919, the 95% quantile; false for an empty block.
pub open spec fn digit_distribution_uniform(s: Seq<u8>) -> bool {
    s.len() > 0 && 1000 * chi_sum(s, 10) <= CHI_SQUARED_THRESHOLD_MILLI * 10 * s.len()
}


/// Mask bit `i` of the two halves.
pub open spec fn mask_bit(mask0: Seq<bool>, mask1: Seq<bool>, i: int) -> bool {
    if i < M {
        mask0[i]
    } else {
        mask1[i - M]
    }
}

/// The payload bits a digit carries: the three bits (most significant
/// first) of a small digit, the bit `d - 8` of a large one.
pub open spec fn digit_bits(d: u8) -> Seq<u8> {
    if d <= 7 {
        seq![d / 4, (d / 2) % 2, d % 2]
    } else {
        seq![(d - 8) as u8]
    }
}

/// The bits carried by `digits[0..n]`, in order.
pub open spec fn read_bits(digits: Seq<u8>, n: int) -> Seq<u8>
    decreases n,
{
    if n <= 0 {
        Seq::empty()
    } else {
        read_bits(digits, n - 1) + digit_bits(digits[n - 1])
    }
}

/// The number of bits the first `n` digits of the mask region carry: three
/// per clear mask bit, one per set mask bit.
pub open spec fn capacity(mask0: Seq<bool>, mask1: Seq<bool>, n: int) -> int
    decreases n,
{
    if n <= 0 {
        0
    } else {
        capacity(mask0, mask1, n - 1) + (if mask_bit(mask0, mask1, n - 1) { 1int } else { 3int })
    }
}

/// Bit `k` of the stream the encoder consumes: the payload bits, then the filler bits.
pub open spec fn stream_bit(bits: Seq<u8>, filler: Seq<u8>, k: int) -> u8 {
    if k < bits.len() {
        bits[k]
    } else {
        filler[k - bits.len()]
    }
}

/// Digit `i` of the mask region: `8 + b` for a set mask bit, the 3-bit number
/// `b0 b1 b2` for a clear one, with the bits taken from the stream where the
/// previous digits stopped.
pub open spec fn mask_digit(mask0: Seq<bool>, mask1: Seq<bool>, bits: Seq<u8>, filler: Seq<u8>, i: int) -> u8 {
    let p = capacity(mask0, mask1, i);
    if mask_bit(mask0, mask1, i) {
        (8 + stream_bit(bits, filler, p)) as u8
    } else {
        (4 * stream_bit(bits, filler, p) + 2 * stream_bit(bits, filler, p + 1) + stream_bit(bits, filler, p + 2)) as u8
    }
}

/// The superblock the encoder builds from the mask, the payload bits, the
/// filler bits and the padding digits.
pub open spec fn encoded_block(
    mask0: Seq<bool>,
    mask1: Seq<bool>,
    bits: Seq<u8>,
    filler: Seq<u8>,
    padding: Seq<u8>,
) -> Seq<u8> {
    Seq::new(
        SUPERBLOCK_DIGITS as nat,
        |i: int| if i < 2 * M { mask_digit(mask0, mask1, bits, filler, i) } else { padding[i - 2 * M] },
    )
}

/// `digits` is a superblock of digits whose mask region shows the mask
/// (digit above 7 exactly for a set mask bit) and carries `payload_bits` as
/// the start of its bits.
pub open spec fn digits_encode(digits: Seq<u8>, mask0: Seq<bool>, mask1: Seq<bool>, payload_bits: Seq<u8>) -> bool {
    &&& digits.len() == SUPERBLOCK_DIGITS
    &&& forall|i: int| 0 <= i < digits.len() ==> #[trigger] digits[i] <= 9
    &&& forall|i: int| 0 <= i < 2 * M ==> (#[trigger] digits[i] > 7) == mask_bit(mask0, mask1, i)
    &&& payload_bits.len() <= read_bits(digits, 2 * M).len()
    &&& forall|k: int| 0 <= k < payload_bits.len() ==> #[trigger] read_bits(digits, 2 * M)[k] == payload_bits[k]
}

/// The bits of a byte string, most significant bit of each byte first.
pub open spec fn payload_bits_of(p: Seq<u8>) -> Seq<u8> {
    Seq::new(p.len() * 8, |k: int| (p[k / 8] >> (7 - k % 8) as u8) & 1)
}

/// The payload of a message: its length (4 bytes, little endian), the nonce,
/// and the AES-256-GCM ciphertext followed by the tag.
pub open spec fn stego_payload(key: Seq<u8>, nonce: Seq<u8>, msg: Seq<u8>) -> Seq<u8> {
    le32(msg.len() as u32) + nonce + aes256gcm_seal(key, nonce, msg)
}

/// The mask `(pk * c1 + e0, c1 + e1)`: a codeword plus the error.
pub open spec fn stego_mask0(pk: Seq<bool>, e0: Seq<bool>, c1: Seq<bool>) -> Seq<bool> {
    ring_add(ring_mul(pk, c1), e0)
}

/// Second half of the mask.
pub open spec fn stego_mask1(e1: Seq<bool>, c1: Seq<bool>) -> Seq<bool> {
    ring_add(c1, e1)
}

/// `digits` hides `msg` for the public key `pk`: an error `(e0, e1)` of weight
/// `ERROR_WEIGHT`, a codeword `(pk * c1, c1)` and a nonce give the mask, the
/// session key (BLAKE3 of the error) and the payload, which the digits carry;
/// the sealed message opens back to `msg` under that key and nonce.
pub open spec fn stego_encoding(
    pk: Seq<bool>,
    msg: Seq<u8>,
    digits: Seq<u8>,
    e0: Seq<bool>,
    e1: Seq<bool>,
    c1: Seq<bool>,
    nonce: Seq<u8>,
) -> bool {
    let key = stego_key(e0, e1);
    let sealed = aes256gcm_seal(key, nonce, msg);
    &&& e0.len() == M
    &&& e1.len() == M
    &&& c1.len() == M
    &&& nonce.len() == 12
    &&& count_true(e0) + count_true(e1) == ERROR_WEIGHT
    &&& msg.len() <= MAX_PAYLOAD_BYTES
    &&& sealed.len() == msg.len() + 16
    &&& aes256gcm_open(key, nonce, sealed.take(msg.len() as int), sealed.skip(msg.len() as int)) == Some(msg)
    &&& digits_encode(
        digits,
        stego_mask0(pk, e0, c1),
        stego_mask1(e1, c1),
        payload_bits_of(stego_payload(key, nonce, msg)),
    )
}

/// `digits` hide `msg` for `pk`: some error, codeword and nonce relate them
/// by [`stego_encoding`].
#[verifier::opaque]
pub open spec fn hides(pk: Seq<bool>, msg: Seq<u8>, digits: Seq<u8>) -> bool {
    exists|e0: Seq<bool>, e1: Seq<bool>, c1: Seq<bool>, nonce: Seq<u8>| #[trigger]
        stego_encoding(pk, msg, digits, e0, e1, c1, nonce)
}

/// The random values one attempt draws: the error halves, the codeword half
/// `c1`, the nonce, the filler bits and the padding digits.
pub type StegoDraw = (Seq<bool>, Seq<bool>, Seq<bool>, Seq<u8>, Seq<u8>, Seq<u8>);

/// The values have the shapes the encoder draws them in.
pub open spec fn draw_valid(d: StegoDraw) -> bool {
    &&& d.0.len() == M
    &&& d.1.len() == M
    &&& count_true(d.0) + count_true(d.1) == ERROR_WEIGHT
    &&& d.2.len() == M
    &&& d.3.len() == 12
    &&& d.4.len() == FILLER_BITS
    &&& forall|k: int| 0 <= k < d.4.len() ==> #[trigger] d.4[k] <= 1
    &&& d.5.len() == PADDING_DIGITS
    &&& forall|k: int| 0 <= k < d.5.len() ==> #[trigger] d.5[k] <= 9
}

/// What one attempt with the drawn values `d` yields: the encoded superblock
/// when the payload fits in the mask region and the padding passes the
/// uniformity test, nothing otherwise.
pub open spec fn attempt_result(pk: Seq<bool>, msg: Seq<u8>, d: StegoDraw) -> Option<Seq<u8>> {
    let mask0 = stego_mask0(pk, d.0, d.2);
    let mask1 = stego_mask1(d.1, d.2);
    let bits = payload_bits_of(stego_payload(stego_key(d.0, d.1), d.3, msg));
    if bits.len() <= capacity(mask0, mask1, 2 * M) && digit_distribution_uniform(d.5) {
        Some(encoded_block(mask0, mask1, bits, d.4, d.5))
    } else {
        None
    }
}

/// The uniformity test on a digit block, in exact integer arithmetic:
/// `1000 * sum (10 c_d - n)^2 <= 16919 * 10 * n`, with `n` the block length
/// and `c_d` the number of digits equal to `d`.
fn is_digit_distribution_uniform(digits: &[u8]) -> (r: bool)
    requires
        digits@.len() <= 0x1_0000_0000,
    ensures
        r == digit_distribution_uniform(digits@),
{
    let n = digits.len();
    let mut counts: [u64; 10] = [0u64; 10];
    let mut t: usize = 0;
    while t < n
        invariant
            n == digits@.len(),
            n <= 0x1_0000_0000,
            t <= n,
            forall|d: int| 0 <= d < 10 ==> #[trigger] counts@[d] == digit_count(digits@.take(t as int), d as u8),
            forall|d: int| 0 <= d < 10 ==> #[trigger] counts@[d] <= t,
        decreases n - t,
    {
        let d = digits[t];
        proof {
            assert(digits@.take(t + 1).drop_last() =~= digits@.take(t as int));
        }
        if d <= 9 {
            counts[d as usize] = counts[d as usize] + 1;
        }
        t = t + 1;
    }
    proof {
        assert(digits@.take(n as int) =~= digits@);
    }
    if n == 0 {
        return false;
    }
    let mut sum: u128 = 0;
    let mut d: usize = 0;
    while d < 10
        invariant
            n == digits@.len(),
            0 < n <= 0x1_0000_0000,
            d <= 10,
            forall|e: int| 0 <= e < 10 ==> #[trigger] counts@[e] == digit_count(digits@, e as u8),
            forall|e: int| 0 <= e < 10 ==> #[trigger] counts@[e] <= n,
            sum == chi_sum(digits@, d as int),
            sum <= d * 0x64_0000_0000_0000_0000_00,
        decreases 10 - d,
    {
        let c = counts[d] as i128;
        let diff: i128 = 10 * c - (n as i128);
        proof {
            assert(diff * diff <= 0x64_0000_0000_0000_0000_00) by (nonlinear_arith)
                requires
                    -0x1_0000_0000 <= diff <= 10 * 0x1_0000_0000,
            ;
            assert(diff * diff >= 0) by (nonlinear_arith);
        }
        sum = sum + (diff * diff) as u128;
        d = d + 1;
    }
    let lhs: u128 = 1000 * sum;
    let scaled: u128 = (CHI_SQUARED_THRESHOLD_MILLI as u128) * 10;
    proof {
        assert(scaled * (n as u128) <= 169190 * 0x1_0000_0000) by (nonlinear_arith)
            requires
                scaled == 169190,
                n <= 0x1_0000_0000,
        ;
    }
    let rhs: u128 = scaled * (n as u128);
    lhs <= rhs
}

/// The capacity grows by one to three bits a digit.
proof fn lemma_capacity_bounds(mask0: Seq<bool>, mask1: Seq<bool>, n: int)
    requires
        0 <= n,
    ensures
        n <= capacity(mask0, mask1, n) <= 3 * n,
    decreases n,
{
    if n > 0 {
        lemma_capacity_bounds(mask0, mask1, n - 1);
    }
}

/// A small digit built from three bits carries those bits.
proof fn lemma_small_digit(b0: u8, b1: u8, b2: u8)
    requires
        b0 <= 1,
        b1 <= 1,
        b2 <= 1,
    ensures
        ((4 * b0 + 2 * b1 + b2) as u8) <= 7,
        digit_bits((4 * b0 + 2 * b1 + b2) as u8) =~= seq![b0, b1, b2],
{
    let d = (4 * b0 + 2 * b1 + b2) as u8;
    assert(d == 4 * b0 + 2 * b1 + b2);
    assert(d / 4 == b0 && (d / 2) % 2 == b1 && d % 2 == b2);
}

/// The bits carried by valid digits are bits, at least one a digit.
proof fn lemma_read_bits_binary(digits: Seq<u8>, n: int)
    requires
        0 <= n <= digits.len(),
        forall|i: int| 0 <= i < digits.len() ==> #[trigger] digits[i] <= 9,
    ensures
        forall|k: int| 0 <= k < read_bits(digits, n).len() ==> #[trigger] read_bits(digits, n)[k] <= 1,
        n <= read_bits(digits, n).len(),
    decreases n,
{
    if n > 0 {
        lemma_read_bits_binary(digits, n - 1);
        let a = read_bits(digits, n - 1);
        let b = digit_bits(digits[n - 1]);
        assert forall|k: int| 0 <= k < (a + b).len() implies #[trigger] (a + b)[k] <= 1 by {
            if k >= a.len() {
                assert((a + b)[k] == b[k - a.len()]);
            }
        }
    }
}

/// Every stream bit within the filler's reach is a bit.
proof fn lemma_stream_binary(bits: Seq<u8>, filler: Seq<u8>, k: int)
    requires
        0 <= k < FILLER_BITS,
        forall|j: int| 0 <= j < bits.len() ==> #[trigger] bits[j] <= 1,
        forall|j: int| 0 <= j < filler.len() ==> #[trigger] filler[j] <= 1,
        filler.len() == FILLER_BITS,
    ensures
        stream_bit(bits, filler, k) <= 1,
{
}

/// The digits of an encoded block give back, in order, the stream bits they consumed.
proof fn lemma_read_encoded(mask0: Seq<bool>, mask1: Seq<bool>, bits: Seq<u8>, filler: Seq<u8>, padding: Seq<u8>, n: int)
    requires
        0 <= n <= 2 * M,
        forall|k: int| 0 <= k < bits.len() ==> #[trigger] bits[k] <= 1,
        forall|k: int| 0 <= k < filler.len() ==> #[trigger] filler[k] <= 1,
        filler.len() == FILLER_BITS,
    ensures
        read_bits(encoded_block(mask0, mask1, bits, filler, padding), n) =~= Seq::new(
            capacity(mask0, mask1, n) as nat,
            |k: int| stream_bit(bits, filler, k),
        ),
    decreases n,
{
    let blk = encoded_block(mask0, mask1, bits, filler, padding);
    if n > 0 {
        let i = n - 1;
        lemma_read_encoded(mask0, mask1, bits, filler, padding, i);
        lemma_capacity_bounds(mask0, mask1, n);
        lemma_capacity_bounds(mask0, mask1, i);
        let p = capacity(mask0, mask1, i);
        assert(blk[i] == mask_digit(mask0, mask1, bits, filler, i));
        let prev = Seq::new(p as nat, |k: int| stream_bit(bits, filler, k));
        if mask_bit(mask0, mask1, i) {
            lemma_stream_binary(bits, filler, p);
            let b0 = stream_bit(bits, filler, p);
            assert(digit_bits(blk[i]) =~= seq![b0]);
            assert(prev + seq![b0] =~= Seq::new((p + 1) as nat, |k: int| stream_bit(bits, filler, k)));
        } else {
            lemma_stream_binary(bits, filler, p);
            lemma_stream_binary(bits, filler, p + 1);
            lemma_stream_binary(bits, filler, p + 2);
            let b0 = stream_bit(bits, filler, p);
            let b1 = stream_bit(bits, filler, p + 1);
            let b2 = stream_bit(bits, filler, p + 2);
            lemma_small_digit(b0, b1, b2);
            assert(digit_bits(blk[i]) =~= seq![b0, b1, b2]);
            assert(prev + seq![b0, b1, b2] =~= Seq::new((p + 3) as nat, |k: int| stream_bit(bits, filler, k)));
        }
    }
}

/// An encoded block whose mask region holds all the payload bits encodes them.
proof fn lemma_block_encodes(mask0: Seq<bool>, mask1: Seq<bool>, bits: Seq<u8>, filler: Seq<u8>, padding: Seq<u8>)
    requires
        mask0.len() == M,
        mask1.len() == M,
        forall|k: int| 0 <= k < bits.len() ==> #[trigger] bits[k] <= 1,
        forall|k: int| 0 <= k < filler.len() ==> #[trigger] filler[k] <= 1,
        filler.len() == FILLER_BITS,
        padding.len() == PADDING_DIGITS,
        forall|k: int| 0 <= k < padding.len() ==> #[trigger] padding[k] <= 9,
        bits.len() <= capacity(mask0, mask1, 2 * M),
    ensures
        digits_encode(encoded_block(mask0, mask1, bits, filler, padding), mask0, mask1, bits),
{
    let blk = encoded_block(mask0, mask1, bits, filler, padding);
    lemma_read_encoded(mask0, mask1, bits, filler, padding, 2 * M);
    assert forall|i: int| 0 <= i < blk.len() implies #[trigger] blk[i] <= 9 && (i < 2 * M ==> (blk[i] > 7)
        == mask_bit(mask0, mask1, i)) by {
        if i < 2 * M {
            let p = capacity(mask0, mask1, i);
            lemma_capacity_bounds(mask0, mask1, i + 1);
            lemma_capacity_bounds(mask0, mask1, i);
            lemma_stream_binary(bits, filler, p);
            if !mask_bit(mask0, mask1, i) {
                lemma_stream_binary(bits, filler, p + 1);
                lemma_stream_binary(bits, filler, p + 2);
                lemma_small_digit(stream_bit(bits, filler, p), stream_bit(bits, filler, p + 1), stream_bit(bits, filler, p + 2));
            }
        }
    }
}

/// One stream bit: a payload bit, or a filler bit past the payload.
fn stream_at(bits: &[u8], filler: &[u8], k: usize) -> (b: u8)
    requires
        k < bits@.len() + filler@.len(),
    ensures
        b == stream_bit(bits@, filler@, k as int),
{
    if k < bits.len() {
        bits[k]
    } else {
        filler[k - bits.len()]
    }
}

/// Packs the mask and the payload bits into a superblock: digit `i` of the
/// mask region is `8 + b` (one stream bit) for a set mask bit and the 3-bit
/// number of the next three stream bits for a clear one, the stream being the
/// payload bits followed by the filler bits; the padding digits follow.
/// Fails when the mask region cannot hold the whole payload.
fn encode_uniform_digits(
    mask0: &Polynomial,
    mask1: &Polynomial,
    payload_bits: &[u8],
    filler: &[u8],
    padding: &[u8],
) -> (r: ArcResult<Vec<u8>>)
    requires
        forall|k: int| 0 <= k < payload_bits@.len() ==> #[trigger] payload_bits@[k] <= 1,
        filler@.len() == FILLER_BITS,
        forall|k: int| 0 <= k < filler@.len() ==> #[trigger] filler@[k] <= 1,
        padding@.len() == PADDING_DIGITS,
        forall|k: int| 0 <= k < padding@.len() ==> #[trigger] padding@[k] <= 9,
    ensures
        r is Ok <==> payload_bits@.len() <= capacity(mask0@, mask1@, 2 * M),
        r matches Ok(d) ==> d@ == encoded_block(mask0@, mask1@, payload_bits@, filler@, padding@),
        r matches Err(e) ==> e is EncodingError,
{
    proof {
        mask0.lemma_view();
        mask1.lemma_view();
    }
    let ghost blk = encoded_block(mask0@, mask1@, payload_bits@, filler@, padding@);
    let mut digits: Vec<u8> = Vec::new();
    let mut pos: usize = 0;
    let n2: usize = 2 * M;
    let mut i: usize = 0;
    while i < n2
        invariant
            n2 == 2 * M,
            i <= n2,
            mask0@.len() == M,
            mask1@.len() == M,
            filler@.len() == FILLER_BITS,
            blk == encoded_block(mask0@, mask1@, payload_bits@, filler@, padding@),
            pos == capacity(mask0@, mask1@, i as int),
            pos <= 3 * i,
            digits@.len() == i,
            forall|t: int| 0 <= t < i ==> #[trigger] digits@[t] == blk[t],
            forall|k: int| 0 <= k < payload_bits@.len() ==> #[trigger] payload_bits@[k] <= 1,
            forall|k: int| 0 <= k < filler@.len() ==> #[trigger] filler@[k] <= 1,
        decreases n2 - i,
    {
        proof {
            lemma_capacity_bounds(mask0@, mask1@, i + 1);
            lemma_stream_binary(payload_bits@, filler@, pos as int);
            lemma_stream_binary(payload_bits@, filler@, pos + 1);
            lemma_stream_binary(payload_bits@, filler@, pos + 2);
        }
        let set = if i < M { mask0.get_bit(i) == 1 } else { mask1.get_bit(i - M) == 1 };
        assert(set == mask_bit(mask0@, mask1@, i as int));
        let d: u8 = if set {
            let b = stream_at(payload_bits, filler, pos);
            8 + b
        } else {
            let b0 = stream_at(payload_bits, filler, pos);
            let b1 = stream_at(payload_bits, filler, pos + 1);
            let b2 = stream_at(payload_bits, filler, pos + 2);
            4 * b0 + 2 * b1 + b2
        };
        assert(d == mask_digit(mask0@, mask1@, payload_bits@, filler@, i as int));
        digits.push(d);
        pos = if set { pos + 1 } else { pos + 3 };
        i = i + 1;
    }
    if payload_bits.len() > pos {
        return Err(ArcError::EncodingError("payload exceeds the capacity of the mask region".to_owned()));
    }
    let mut k: usize = 0;
    while k < PADDING_DIGITS
        invariant
            n2 == 2 * M,
            k <= PADDING_DIGITS,
            padding@.len() == PADDING_DIGITS,
            blk == encoded_block(mask0@, mask1@, payload_bits@, filler@, padding@),
            digits@.len() == n2 + k,
            forall|t: int| 0 <= t < n2 + k ==> #[trigger] digits@[t] == blk[t],
        decreases PADDING_DIGITS - k,
    {
        digits.push(padding[k]);
        k = k + 1;
    }
    assert(digits@ =~= blk);
    Ok(digits)
}

/// The steganographic session key of an error: BLAKE3 of the tag and the two packed halves.
fn stego_error_key(e0: &Polynomial, e1: &Polynomial) -> (r: [u8; SESSION_KEY_BYTES])
    ensures
        r@ == blake3_digest(stego_key_input(e0@, e1@)),
{
    let mut key_input: Vec<u8> = vec![65u8, 82, 67, 66, 45, 83, 84, 69, 71, 79, 45, 75, 69, 89, 45, 86, 49];
    key_input.extend_from_slice(e0.as_bytes().as_slice());
    key_input.extend_from_slice(e1.as_bytes().as_slice());
    proof {
        lemma_pack(*e0);
        lemma_pack(*e1);
        assert(key_input@ =~= stego_key_input(e0@, e1@));
    }
    blake3_hash(key_input.as_slice())
}

/// The bits of `payload`, most significant bit of each byte first.
fn payload_to_bits(payload: &[u8]) -> (r: Vec<u8>)
    ensures
        r@ == payload_bits_of(payload@),
        forall|k: int| 0 <= k < r@.len() ==> #[trigger] r@[k] <= 1,
{
    let mut payload_bits: Vec<u8> = Vec::new();
    let mut j: usize = 0;
    while j < payload.len()
        invariant
            j <= payload@.len(),
            payload_bits@.len() == 8 * j,
            forall|k: int| 0 <= k < 8 * j ==> #[trigger] payload_bits@[k] == payload_bits_of(payload@)[k],
        decreases payload@.len() - j,
    {
        let byte = payload[j];
        let mut b: u8 = 0;
        while b < 8
            invariant
                j < payload@.len(),
                byte == payload@[j as int],
                b <= 8,
                payload_bits@.len() == 8 * j + b,
                forall|k: int| 0 <= k < 8 * j + b ==> #[trigger] payload_bits@[k] == payload_bits_of(payload@)[k],
            decreases 8 - b,
        {
            payload_bits.push((byte >> (7 - b)) & 1);
            proof {
                let k = 8 * j + b;
                assert(k / 8 == j as int && k % 8 == b as int);
            }
            b = b + 1;
        }
        j = j + 1;
    }
    proof {
        assert(payload_bits@ =~= payload_bits_of(payload@));
        assert forall|k: int| 0 <= k < payload_bits@.len() implies #[trigger] payload_bits@[k] <= 1 by {
            lemma_byte_shift(payload@[k / 8], (7 - k % 8) as u8);
        }
    }
    payload_bits
}


/// The draws of one attempt: `n` random bits, each the low bit of a drawn byte.
fn draw_bits<R: RandomSource>(rng: &mut R, n: usize) -> (r: Vec<u8>)
    ensures
        r@.len() == n,
        forall|k: int| 0 <= k < r@.len() ==> #[trigger] r@[k] <= 1,
        extends(old(rng).drawn(), final(rng).drawn()),
        draws_since(old(rng).drawn(), final(rng).drawn()).len() == n,
        forall|k: int| 0 <= k < n ==> 0 <= #[trigger] draws_since(old(rng).drawn(), final(rng).drawn())[k] < 256,
        r@ == low_bits(draws_since(old(rng).drawn(), final(rng).drawn())),
{
    let ghost d0 = rng.drawn();
    let ghost mut ds: Seq<int> = Seq::empty();
    let mut v: Vec<u8> = Vec::new();
    let mut k: usize = 0;
    while k < n
        invariant
            k <= n,
            v@.len() == k,
            forall|j: int| 0 <= j < v@.len() ==> #[trigger] v@[j] <= 1,
            rng.drawn() == d0 + ds,
            ds.len() == k,
            forall|j: int| 0 <= j < k ==> 0 <= #[trigger] ds[j] < 256,
            v@ == low_bits(ds),
        decreases n - k,
    {
        let x = rng.gen_byte();
        proof {
            lemma_byte_facts(x, 0u8);
            assert(x & 1 == x % 2) by (bit_vector);
            ds = ds.push(x as int);
        }
        v.push(x & 1);
        proof {
            assert(v@ =~= low_bits(ds));
        }
        k = k + 1;
    }
    proof {
        assert(draws_since(d0, rng.drawn()) =~= ds);
        assert(rng.drawn().take(d0.len() as int) =~= d0);
    }
    v
}

/// The low bit of each drawn byte.
pub open spec fn low_bits(s: Seq<int>) -> Seq<u8> {
    Seq::new(s.len(), |k: int| (s[k] % 2) as u8)
}

/// The draws of one attempt: `n` random digits.
fn draw_digits<R: RandomSource>(rng: &mut R, n: usize) -> (r: Vec<u8>)
    ensures
        r@.len() == n,
        forall|k: int| 0 <= k < r@.len() ==> #[trigger] r@[k] <= 9,
        extends(old(rng).drawn(), final(rng).drawn()),
        draws_since(old(rng).drawn(), final(rng).drawn()).len() == n,
        forall|k: int| 0 <= k < n ==> 0 <= #[trigger] draws_since(old(rng).drawn(), final(rng).drawn())[k] < 10,
        r@ == values_bytes(draws_since(old(rng).drawn(), final(rng).drawn())),
{
    let ghost d0 = rng.drawn();
    let ghost mut ds: Seq<int> = Seq::empty();
    let mut v: Vec<u8> = Vec::new();
    let mut k: usize = 0;
    while k < n
        invariant
            k <= n,
            v@.len() == k,
            forall|j: int| 0 <= j < v@.len() ==> #[trigger] v@[j] <= 9,
            rng.drawn() == d0 + ds,
            ds.len() == k,
            forall|j: int| 0 <= j < k ==> 0 <= #[trigger] ds[j] < 10,
            v@ == values_bytes(ds),
        decreases n - k,
    {
        let x = rng.gen_byte_below(0, 10);
        proof {
            ds = ds.push(x as int);
        }
        v.push(x);
        proof {
            assert(v@ =~= values_bytes(ds));
        }
        k = k + 1;
    }
    proof {
        assert(draws_since(d0, rng.drawn()) =~= ds);
        assert(rng.drawn().take(d0.len() as int) =~= d0);
    }
    v
}

/// One attempt with drawn values: forms the mask `(p * c1 + e0, c1 + e1)`,
/// seals the message under the error's key, packs length, nonce, ciphertext
/// and tag into the mask region, and keeps the block when it fits and its
/// padding passes the uniformity test.
pub fn stego_attempt(
    public: &Polynomial,
    message: &[u8],
    e0: &Polynomial,
    e1: &Polynomial,
    c1: &Polynomial,
    nonce: &[u8; 12],
    filler: &[u8],
    padding: &[u8],
) -> (r: Option<Vec<u8>>)
    requires
        message@.len() <= MAX_PAYLOAD_BYTES,
        filler@.len() == FILLER_BITS,
        forall|k: int| 0 <= k < filler@.len() ==> #[trigger] filler@[k] <= 1,
        padding@.len() == PADDING_DIGITS,
        forall|k: int| 0 <= k < padding@.len() ==> #[trigger] padding@[k] <= 9,
    ensures
        r is Some <==> attempt_result(public@, message@, (e0@, e1@, c1@, nonce@, filler@, padding@)) is Some,
        r matches Some(d) ==> attempt_result(public@, message@, (e0@, e1@, c1@, nonce@, filler@, padding@))
            == Some(d@),
        aes256gcm_seal(stego_key(e0@, e1@), nonce@, message@).len() == message@.len() + 16,
        aes256gcm_open(
            stego_key(e0@, e1@),
            nonce@,
            aes256gcm_seal(stego_key(e0@, e1@), nonce@, message@).take(message@.len() as int),
            aes256gcm_seal(stego_key(e0@, e1@), nonce@, message@).skip(message@.len() as int),
        ) == Some(message@),
{
    let c0 = public.multiply(c1);
    let mask0 = c0.xor(e0);
    let mask1 = c1.xor(e1);
    proof {
        assert(mask0@ =~= stego_mask0(public@, e0@, c1@));
        assert(mask1@ =~= stego_mask1(e1@, c1@));
    }
    let session_key = stego_error_key(e0, e1);
    let (ciphertext, tag) = match aes256gcm_encrypt(&session_key, nonce, message) {
        Ok(sealed) => sealed,
        Err(_) => return None,
    };
    let ghost sealed = aes256gcm_seal(stego_key(e0@, e1@), nonce@, message@);
    proof {
        assert(sealed =~= ciphertext@ + tag@);
        assert(sealed.take(message@.len() as int) =~= ciphertext@);
        assert(sealed.skip(message@.len() as int) =~= tag@);
    }
    let len32: u32 = ciphertext.len() as u32;
    let mut payload: Vec<u8> = Vec::new();
    payload.push((len32 & 0xff) as u8);
    payload.push(((len32 >> 8) & 0xff) as u8);
    payload.push(((len32 >> 16) & 0xff) as u8);
    payload.push(((len32 >> 24) & 0xff) as u8);
    payload.extend_from_slice(nonce.as_slice());
    payload.extend_from_slice(ciphertext.as_slice());
    payload.extend_from_slice(tag.as_slice());
    proof {
        assert(payload@ =~= stego_payload(stego_key(e0@, e1@), nonce@, message@));
    }
    let payload_bits = payload_to_bits(payload.as_slice());
    let digits = match encode_uniform_digits(&mask0, &mask1, payload_bits.as_slice(), filler, padding) {
        Ok(d) => d,
        Err(_) => return None,
    };
    let padding_region = slice_subrange(digits.as_slice(), 2 * M, SUPERBLOCK_DIGITS);
    proof {
        assert(padding_region@ =~= padding@);
    }
    if is_digit_distribution_uniform(padding_region) {
        Some(digits)
    } else {
        None
    }
}

/// The superblock an attempt yields hides the message.
proof fn lemma_attempt_encodes(pk: Seq<bool>, msg: Seq<u8>, d: StegoDraw, digits: Seq<u8>)
    requires
        pk.len() == M,
        draw_valid(d),
        msg.len() <= MAX_PAYLOAD_BYTES,
        attempt_result(pk, msg, d) == Some(digits),
        aes256gcm_seal(stego_key(d.0, d.1), d.3, msg).len() == msg.len() + 16,
        aes256gcm_open(
            stego_key(d.0, d.1),
            d.3,
            aes256gcm_seal(stego_key(d.0, d.1), d.3, msg).take(msg.len() as int),
            aes256gcm_seal(stego_key(d.0, d.1), d.3, msg).skip(msg.len() as int),
        ) == Some(msg),
    ensures
        stego_encoding(pk, msg, digits, d.0, d.1, d.2, d.3),
        hides(pk, msg, digits),
{
    let bits = payload_bits_of(stego_payload(stego_key(d.0, d.1), d.3, msg));
    assert forall|k: int| 0 <= k < bits.len() implies #[trigger] bits[k] <= 1 by {
        lemma_byte_shift(stego_payload(stego_key(d.0, d.1), d.3, msg)[k / 8], (7 - k % 8) as u8);
    }
    lemma_block_encodes(stego_mask0(pk, d.0, d.2), stego_mask1(d.1, d.2), bits, d.4, d.5);
    assert(stego_encoding(pk, msg, digits, d.0, d.1, d.2, d.3));
    reveal(hides);
}

/// How many values one attempt draws: the error's indices, the bytes of the
/// codeword half, the nonce's bytes, one byte per filler bit and the
/// padding digits.
pub open spec fn attempt_draw_count() -> int {
    ERROR_WEIGHT + PUBKEY_BYTES + 12 + FILLER_BITS + PADDING_DIGITS
}

/// The values `s` of one attempt lie in the ranges they are drawn from.
pub open spec fn attempt_draws_valid(s: Seq<int>) -> bool {
    let o1 = ERROR_WEIGHT as int;
    let o4 = o1 + PUBKEY_BYTES + 12 + FILLER_BITS;
    &&& s.len() == attempt_draw_count()
    &&& error_draws_valid(s.take(o1))
    &&& forall|k: int| o1 <= k < o4 ==> 0 <= #[trigger] s[k] < 256
    &&& forall|k: int| o4 <= k < s.len() ==> 0 <= #[trigger] s[k] < 10
}

/// What one attempt makes of its values `s`: the error the indices select,
/// the codeword half whose bits are the next bytes, the nonce, the low bit
/// of each filler byte and the padding digits.
pub open spec fn attempt_draw(s: Seq<int>) -> StegoDraw {
    let o1 = ERROR_WEIGHT as int;
    let o2 = o1 + PUBKEY_BYTES;
    let o3 = o2 + 12;
    let o4 = o3 + FILLER_BITS;
    let e = error_from_draws(s.take(o1));
    (
        e.0,
        e.1,
        bytes_to_bits(values_bytes(s.subrange(o1, o2))),
        values_bytes(s.subrange(o2, o3)),
        low_bits(s.subrange(o3, o4)),
        values_bytes(s.subrange(o4, s.len() as int)),
    )
}

/// What at most `left` attempts with the drawn values `s` give:
/// `Some(Some(b))` when the last attempt yields the superblock `b` and all
/// before it fail, `Some(None)` when all `left` attempts fail, and `None`
/// when `s` is not exactly what such a run draws.
pub open spec fn stego_from_draws(pk: Seq<bool>, msg: Seq<u8>, s: Seq<int>, left: int) -> Option<Option<Seq<u8>>>
    decreases left,
{
    if left <= 0 {
        if s.len() == 0 {
            Some(None)
        } else {
            None
        }
    } else if s.len() < attempt_draw_count() || !attempt_draws_valid(s.take(attempt_draw_count())) {
        None
    } else {
        match attempt_result(pk, msg, attempt_draw(s.take(attempt_draw_count()))) {
            Some(b) => if s.len() == attempt_draw_count() {
                Some(Some(b))
            } else {
                None
            },
            None => stego_from_draws(pk, msg, s.skip(attempt_draw_count()), left - 1),
        }
    }
}

/// The superblock of a result, if any.
pub open spec fn block_of(r: ArcResult<Vec<u8>>) -> Option<Seq<u8>> {
    match r {
        Ok(d) => Some(d@),
        Err(_) => None,
    }
}

/// Hides an empty message.
pub fn encapsulate_stego(keypair: &KeyPair) -> (r: ArcResult<Vec<u8>>)
    ensures
        exists|s: Seq<int>| #[trigger] stego_from_draws(keypair.public@, Seq::<u8>::empty(), s, MAX_ENCODE_ATTEMPTS as int)
            == Some(block_of(r)),
        r matches Ok(digits) ==> hides(keypair.public@, Seq::<u8>::empty(), digits@),
        r matches Err(e) ==> e is EncodingError,
{
    let empty: [u8; 0] = [];
    let r = encapsulate_stego_with_message(keypair, empty.as_slice());
    proof {
        assert(empty@ =~= Seq::<u8>::empty());
    }
    r
}

/// Hides `message` for the key pair's public key, drawing from the
/// operating-system generator (see [`encapsulate_stego_from`]).
pub fn encapsulate_stego_with_message(keypair: &KeyPair, message: &[u8]) -> (r: ArcResult<Vec<u8>>)
    ensures
        message@.len() > MAX_PAYLOAD_BYTES <==> r matches Err(ArcError::InvalidInput(_)),
        message@.len() <= MAX_PAYLOAD_BYTES ==> exists|s: Seq<int>| #[trigger] stego_from_draws(
            keypair.public@,
            message@,
            s,
            MAX_ENCODE_ATTEMPTS as int,
        ) == Some(block_of(r)),
        r matches Ok(digits) ==> hides(keypair.public@, message@, digits@),
        r matches Err(e) ==> e is InvalidInput || e is EncodingError,
{
    let mut rng = OsSource::new();
    let r = encapsulate_stego_from(keypair, message, &mut rng);
    proof {
        if message@.len() <= MAX_PAYLOAD_BYTES {
            let s = draws_since(Seq::<int>::empty(), rng.drawn());
            assert(stego_from_draws(keypair.public@, message@, s, MAX_ENCODE_ATTEMPTS as int) == Some(block_of(r)));
        }
    }
    r
}

/// Hides `message` for the key pair's public key with values drawn from
/// `rng`: each attempt draws an error, a codeword half, a nonce, filler bits
/// and padding digits and runs [`stego_attempt`]; the first superblock an
/// attempt yields is the result, and after `MAX_ENCODE_ATTEMPTS` failed
/// attempts the encoding fails.
#[verifier::spinoff_prover]
pub fn encapsulate_stego_from(keypair: &KeyPair, message: &[u8], rng: &mut OsSource) -> (r: ArcResult<Vec<u8>>)
    ensures
        message@.len() > MAX_PAYLOAD_BYTES <==> r matches Err(ArcError::InvalidInput(_)),
        message@.len() > MAX_PAYLOAD_BYTES ==> final(rng).drawn() == old(rng).drawn(),
        extends(old(rng).drawn(), final(rng).drawn()),
        message@.len() <= MAX_PAYLOAD_BYTES ==> stego_from_draws(
            keypair.public@,
            message@,
            draws_since(old(rng).drawn(), final(rng).drawn()),
            MAX_ENCODE_ATTEMPTS as int,
        ) == Some(block_of(r)),
        r matches Ok(digits) ==> hides(keypair.public@, message@, digits@),
        r matches Err(e) ==> e is InvalidInput || e is EncodingError,
{
    if message.len() > MAX_PAYLOAD_BYTES {
        proof {
            assert(rng.drawn().take(rng.drawn().len() as int) =~= rng.drawn());
        }
        return Err(ArcError::InvalidInput(message_length_message(message.len(), MAX_PAYLOAD_BYTES)));
    }
    proof {
        keypair.public.lemma_view();
    }
    let ghost pk = keypair.public@;
    let ghost d0 = rng.drawn();
    let ghost mut acc: Seq<int> = Seq::empty();
    let mut attempt: usize = 0;
    while attempt < MAX_ENCODE_ATTEMPTS
        invariant
            message@.len() <= MAX_PAYLOAD_BYTES,
            pk == keypair.public@,
            pk.len() == M,
            attempt <= MAX_ENCODE_ATTEMPTS,
            d0 == old(rng).drawn(),
            rng.drawn() == d0 + acc,
            forall|q: Seq<int>| #[trigger] stego_from_draws(pk, message@, acc + q, MAX_ENCODE_ATTEMPTS as int)
                == stego_from_draws(pk, message@, q, MAX_ENCODE_ATTEMPTS - attempt),
        decreases MAX_ENCODE_ATTEMPTS - attempt,
    {
        let ghost b0 = rng.drawn();
        let (e0, e1) = generate_error_with(rng);
        let ghost b1 = rng.drawn();
        let c1 = Polynomial::random_full(rng);
        let ghost b2 = rng.drawn();
        let nonce = rng.gen_nonce();
        let ghost b3 = rng.drawn();
        let filler = draw_bits(rng, FILLER_BITS);
        let ghost b4 = rng.drawn();
        let padding = draw_digits(rng, PADDING_DIGITS);
        let ghost b5 = rng.drawn();
        let ghost d: StegoDraw = (e0@, e1@, c1@, nonce@, filler@, padding@);
        let ghost c = draws_since(b0, b5);
        proof {
            lemma_chunk(b0, b1, b2, b3, b4, b5, e0@, e1@, c1@, nonce@, filler@, padding@);
            lemma_extends(b0, b5);
            assert(draw_valid(d));
        }
        let outcome = stego_attempt(
            &keypair.public,
            message,
            &e0,
            &e1,
            &c1,
            &nonce,
            filler.as_slice(),
            padding.as_slice(),
        );
        proof {
            assert(rng.drawn() =~= d0 + (acc + c));
            assert forall|q: Seq<int>| #[trigger] stego_from_draws(pk, message@, (acc + c) + q, MAX_ENCODE_ATTEMPTS as int)
                == stego_from_draws(pk, message@, c + q, MAX_ENCODE_ATTEMPTS - attempt) by {
                assert((acc + c) + q =~= acc + (c + q));
                assert(stego_from_draws(pk, message@, acc + (c + q), MAX_ENCODE_ATTEMPTS as int)
                    == stego_from_draws(pk, message@, c + q, MAX_ENCODE_ATTEMPTS - attempt));
            }
            assert forall|q: Seq<int>| #[trigger] stego_from_draws(pk, message@, c + q, MAX_ENCODE_ATTEMPTS - attempt)
                == (if outcome is None {
                stego_from_draws(pk, message@, q, MAX_ENCODE_ATTEMPTS - attempt - 1)
            } else if q.len() == 0 {
                Some(attempt_result(pk, message@, d))
            } else {
                None
            }) by {
                assert((c + q).take(attempt_draw_count()) =~= c);
                assert((c + q).skip(attempt_draw_count()) =~= q);
            }
        }
        match outcome {
            Some(digits) => {
                proof {
                    lemma_attempt_encodes(pk, message@, d, digits@);
                    let e = Seq::<int>::empty();
                    assert((acc + c) + e =~= acc + c);
                    assert(c + e =~= c);
                    assert(stego_from_draws(pk, message@, (acc + c) + e, MAX_ENCODE_ATTEMPTS as int)
                        == stego_from_draws(pk, message@, c + e, MAX_ENCODE_ATTEMPTS - attempt));
                    assert(draws_since(d0, rng.drawn()) =~= acc + c);
                    assert(rng.drawn().take(d0.len() as int) =~= d0);
                }
                return Ok(digits);
            },
            None => {},
        }
        proof {
            acc = acc + c;
        }
        attempt = attempt + 1;
    }
    proof {
        let e = Seq::<int>::empty();
        assert(acc + e =~= acc);
        assert(stego_from_draws(pk, message@, acc + e, MAX_ENCODE_ATTEMPTS as int)
            == stego_from_draws(pk, message@, e, 0));
        assert(draws_since(d0, rng.drawn()) =~= acc);
        assert(rng.drawn().take(d0.len() as int) =~= d0);
    }
    Err(ArcError::EncodingError(
        "Failed to generate statistically uniform digit distribution after max attempts".to_owned(),
    ))
}

/// The values one attempt draws, read back from the records `b0` to `b5`
/// kept between its draws, are valid and give its draw.
proof fn lemma_chunk(
    b0: Seq<int>,
    b1: Seq<int>,
    b2: Seq<int>,
    b3: Seq<int>,
    b4: Seq<int>,
    b5: Seq<int>,
    e0: Seq<bool>,
    e1: Seq<bool>,
    c1: Seq<bool>,
    nonce: Seq<u8>,
    filler: Seq<u8>,
    padding: Seq<u8>,
)
    requires
        extends(b0, b1),
        error_draws_valid(draws_since(b0, b1)),
        (e0, e1) == error_from_draws(draws_since(b0, b1)),
        extends(b1, b2),
        draws_since(b1, b2).len() == PUBKEY_BYTES,
        forall|k: int| 0 <= k < PUBKEY_BYTES ==> 0 <= #[trigger] draws_since(b1, b2)[k] < 256,
        c1 == bytes_to_bits(values_bytes(draws_since(b1, b2))),
        b3 == b2 + byte_values(nonce),
        nonce.len() == 12,
        extends(b3, b4),
        draws_since(b3, b4).len() == FILLER_BITS,
        forall|k: int| 0 <= k < FILLER_BITS ==> 0 <= #[trigger] draws_since(b3, b4)[k] < 256,
        filler == low_bits(draws_since(b3, b4)),
        extends(b4, b5),
        draws_since(b4, b5).len() == PADDING_DIGITS,
        forall|k: int| 0 <= k < PADDING_DIGITS ==> 0 <= #[trigger] draws_since(b4, b5)[k] < 10,
        padding == values_bytes(draws_since(b4, b5)),
    ensures
        extends(b0, b5),
        attempt_draws_valid(draws_since(b0, b5)),
        attempt_draw(draws_since(b0, b5)) == (e0, e1, c1, nonce, filler, padding),
{
    lemma_extends(b0, b1);
    lemma_extends(b1, b2);
    lemma_extends(b3, b4);
    lemma_extends(b4, b5);
    let s1 = draws_since(b0, b1);
    let s2 = draws_since(b1, b2);
    let s3 = byte_values(nonce);
    let s4 = draws_since(b3, b4);
    let s5 = draws_since(b4, b5);
    let c = s1 + s2 + s3 + s4 + s5;
    assert(b5 =~= b0 + c);
    assert(draws_since(b0, b5) =~= c);
    assert(b5.take(b0.len() as int) =~= b0);
    let o1 = ERROR_WEIGHT as int;
    let o2 = o1 + PUBKEY_BYTES;
    let o3 = o2 + 12;
    let o4 = o3 + FILLER_BITS;
    assert(c.take(o1) =~= s1);
    assert(c.subrange(o1, o2) =~= s2);
    assert(c.subrange(o2, o3) =~= s3);
    assert(c.subrange(o3, o4) =~= s4);
    assert(c.subrange(o4, c.len() as int) =~= s5);
    assert(values_bytes(s3) =~= nonce);
    assert forall|k: int| o1 <= k < o4 implies 0 <= #[trigger] c[k] < 256 by {
        if k < o2 {
            assert(c[k] == s2[k - o1]);
        } else if k < o3 {
            assert(c[k] == s3[k - o2]);
            assert(s3[k - o2] == nonce[k - o2] as int);
        } else {
            assert(c[k] == s4[k - o3]);
        }
    }
    assert forall|k: int| o4 <= k < c.len() implies 0 <= #[trigger] c[k] < 10 by {
        assert(c[k] == s5[k - o4]);
    }
    assert(attempt_draws_valid(c));
}

/// The rejection key: BLAKE3 of the tag, the seed and the digits.
fn rejection_key_stego(seed: &[u8; SEED_BYTES], digits: &[u8]) -> (r: [u8; SESSION_KEY_BYTES])
    ensures
        r@ == blake3_digest(stego_reject_tag() + seed@ + digits@),
{
    let mut input: Vec<u8> = vec![65u8, 82, 67, 66, 45, 83, 84, 69, 71, 79, 45, 82, 69, 74, 45, 86, 49];
    input.extend_from_slice(seed.as_slice());
    input.extend_from_slice(digits);
    proof {
        assert(input@ =~= stego_reject_tag() + seed@ + digits@);
    }
    blake3_hash(input.as_slice())
}

/// 1 for a digit below ten, 0 otherwise, without a branch.
fn digit_valid(d: u8) -> (r: u8)
    ensures
        r == (if d <= 9 { 1u8 } else { 0u8 }),
{
    let x: i16 = (d as i16) - 10;
    let v = ((x >> 15u32) as u8) & 1;
    proof {
        assert(((x >> 15u32) as u8) & 1 == (if x < 0 { 1u8 } else { 0u8 })) by (bit_vector);
    }
    v
}


/// A complete superblock: `SUPERBLOCK_DIGITS` digits, each below ten.
pub open spec fn stego_input_valid(digits: Seq<u8>) -> bool {
    digits.len() == SUPERBLOCK_DIGITS && forall|i: int| 0 <= i < digits.len() ==> #[trigger] digits[i] <= 9
}

/// The mask bit read back from digit `i`: set for the digits 8 and 9.
pub open spec fn read_mask(digits: Seq<u8>, i: int) -> bool {
    i < digits.len() && digits[i] > 7
}

/// The first half of the mask read back from the digits.
pub open spec fn read_mask0(digits: Seq<u8>) -> Seq<bool> {
    Seq::new(M as nat, |i: int| read_mask(digits, i))
}

/// The second half of the mask read back from the digits.
pub open spec fn read_mask1(digits: Seq<u8>) -> Seq<bool> {
    Seq::new(M as nat, |i: int| read_mask(digits, M + i))
}

/// The number whose binary digits, most significant first, are
/// `bits[base .. base + c]`.
pub open spec fn byte_part(bits: Seq<u8>, base: int, c: int) -> int
    decreases c,
{
    if c <= 0 {
        0
    } else {
        2 * byte_part(bits, base, c - 1) + bits[base + c - 1]
    }
}

/// The bytes of a bit string, eight bits each, most significant first
/// (trailing bits that make no whole byte are dropped).
pub open spec fn bytes_of_bits(bits: Seq<u8>) -> Seq<u8> {
    Seq::new((bits.len() / 8) as nat, |k: int| byte_part(bits, 8 * k, 8) as u8)
}

/// The payload bytes carried by the mask region of the digits.
pub open spec fn read_payload(digits: Seq<u8>) -> Seq<u8> {
    bytes_of_bits(read_bits(digits, 2 * M))
}

/// The ciphertext length field of a payload (little endian).
pub open spec fn payload_length(p: Seq<u8>) -> int {
    p[0] + 256 * p[1] + 65536 * p[2] + 16777216 * p[3]
}

/// The error the decoder finds for the read-back mask under the seed's blocks.
pub open spec fn stego_decoded(seed: Seq<u8>, digits: Seq<u8>) -> (Seq<bool>, Seq<bool>) {
    let h0 = derived_poly(seed, 0);
    let h1 = derived_poly(seed, 1);
    let st = bgf_run(syndrome(h0, h1, read_mask0(digits), read_mask1(digits)), h0, h1, MAX_ITER as int);
    (st.0, st.1)
}

/// The read-back mask decodes, through the seed's secret blocks, to an
/// error of weight `ERROR_WEIGHT` with the same syndrome, and the superblock
/// is complete.
pub open spec fn stego_accepts(seed: Seq<u8>, digits: Seq<u8>) -> bool {
    let h0 = derived_poly(seed, 0);
    let h1 = derived_poly(seed, 1);
    let e = stego_decoded(seed, digits);
    &&& stego_input_valid(digits)
    &&& syndrome(h0, h1, e.0, e.1) == syndrome(h0, h1, read_mask0(digits), read_mask1(digits))
    &&& count_true(e.0) + count_true(e.1) == ERROR_WEIGHT
}

/// What decapsulation returns for a complete superblock: when the mask is
/// accepted and the length field is at most `MAX_PAYLOAD_BYTES` and fits the
/// payload, the message that the ciphertext and tag open to under the
/// decoded error's key and the nonce; otherwise the empty message.
pub open spec fn stego_decapsulated(seed: Seq<u8>, digits: Seq<u8>) -> Seq<u8> {
    let p = read_payload(digits);
    let len = payload_length(p);
    let e = stego_decoded(seed, digits);
    if stego_accepts(seed, digits) && 32 <= p.len() && len <= MAX_PAYLOAD_BYTES && len + 32 <= p.len() {
        match aes256gcm_open(stego_key(e.0, e.1), p.subrange(4, 16), p.subrange(16, 16 + len), p.subrange(16 + len, 32 + len)) {
            Some(m) => m,
            None => Seq::empty(),
        }
    } else {
        Seq::empty()
    }
}

/// Only complete superblocks are read: a digit string of another length
/// than `SUPERBLOCK_DIGITS`, or one holding a value above 9, is not valid
/// input, and decapsulation refuses it.
pub proof fn lemma_stego_refuses_malformed(digits: Seq<u8>)
    ensures
        digits.len() != SUPERBLOCK_DIGITS ==> !stego_input_valid(digits),
        (exists|i: int| 0 <= i < digits.len() && #[trigger] digits[i] > 9) ==> !stego_input_valid(digits),
{
}

/// Recovers the hidden message from a superblock with the seed's secret
/// blocks. An incomplete superblock, or one holding a value above 9, is
/// refused; otherwise the answer is the hidden message, or the empty message
/// where the mask or the payload does not check out (implicit rejection).
pub fn decapsulate_stego(seed: &[u8; SEED_BYTES], digits: &[u8]) -> (r: ArcResult<Vec<u8>>)
    ensures
        r is Err <==> !stego_input_valid(digits@),
        digits@.len() != SUPERBLOCK_DIGITS ==> r is Err,
        (exists|i: int| 0 <= i < digits@.len() && #[trigger] digits@[i] > 9) ==> r is Err,
        r matches Err(e) ==> e is InvalidInput,
        r matches Ok(p) ==> p@ == stego_decapsulated(seed@, digits@),
        r matches Ok(p) ==> p@.len() <= MAX_PAYLOAD_BYTES,
{
    // Input validation: every digit is scanned.
    let correct_len: u8 = if digits.len() == SUPERBLOCK_DIGITS { 1 } else { 0 };
    let mut all_valid: u8 = 1;
    let mut t: usize = 0;
    while t < digits.len()
        invariant
            t <= digits@.len(),
            all_valid == (if forall|u: int| 0 <= u < t ==> #[trigger] digits@[u] <= 9 { 1u8 } else { 0u8 }),
        decreases digits@.len() - t,
    {
        let v = digit_valid(digits[t]);
        proof {
            lemma_byte_facts(all_valid, v);
            if all_valid == 1 && v == 0 {
                assert(!(digits@[t as int] <= 9));
            }
        }
        all_valid = all_valid & v;
        t = t + 1;
    }
    let input_ok = correct_len & all_valid;
    proof {
        lemma_byte_facts(correct_len, all_valid);
        assert((input_ok == 1) == stego_input_valid(digits@));
    }
    if input_ok != 1 {
        return Err(ArcError::InvalidInput("malformed superblock: wrong length or a value above 9".to_owned()));
    }
    // The mask, from the first 2M digits.
    let n2: usize = 2 * M;
    let mut mask_bits = vec![0u8; N];
    let mut i: usize = 0;
    while i < n2
        invariant
            n2 == 2 * M,
            n2 == N,
            i <= n2,
            digits@.len() == SUPERBLOCK_DIGITS,
            mask_bits@.len() == N,
            forall|j: int| 0 <= j < i ==> #[trigger] mask_bits@[j] == (if read_mask(digits@, j) { 1u8 } else { 0u8 }),
        decreases n2 - i,
    {
        let d = digits[i];
        mask_bits.set(i, if d > 7 { 1 } else { 0 });
        i = i + 1;
    }
    let mask0 = match Polynomial::from_bits(slice_subrange(mask_bits.as_slice(), 0, M)) {
        Ok(p) => p,
        Err(_) => Polynomial::zero(),
    };
    let mask1 = match Polynomial::from_bits(slice_subrange(mask_bits.as_slice(), M, N)) {
        Ok(p) => p,
        Err(_) => Polynomial::zero(),
    };
    proof {
        assert(mask0@ =~= read_mask0(digits@));
        assert(mask1@ =~= read_mask1(digits@));
    }
    zeroize_vec(&mut mask_bits);
    // Syndrome of the mask under the secret blocks, decoding and the re-encryption check.
    let (h0p, h1p) = match derive_secret_polynomials(seed) {
        Ok(p) => p,
        Err(_) => (Polynomial::zero(), Polynomial::zero()),
    };
    let h0 = Circulant::new(h0p);
    let h1 = Circulant::new(h1p);
    let syndrome_p = h0.compute_syndrome_ct(&mask0).add(&h1.compute_syndrome_ct(&mask1));
    let (e0_decoded, e1_decoded, converged) = decode(&syndrome_p, &h0, &h1);
    let decode_ok = byte_mask(converged);
    let recomputed = h0.compute_syndrome_ct(&e0_decoded).add(&h1.compute_syndrome_ct(&e1_decoded));
    let ct_ok = byte_mask(recomputed.ct_bytes_equal(&syndrome_p));
    proof {
        lemma_count_true_le(e0_decoded@);
        lemma_count_true_le(e1_decoded@);
        e0_decoded.lemma_view();
        e1_decoded.lemma_view();
    }
    let w = e0_decoded.weight() + e1_decoded.weight();
    let w_ok = byte_mask(w == ERROR_WEIGHT);
    let fo_mask = ct_ok & w_ok;
    let mask = fo_mask & decode_ok;
    proof {
        assert(syndrome_p@ =~= syndrome(h0@, h1@, read_mask0(digits@), read_mask1(digits@)));
        assert(recomputed@ =~= syndrome(h0@, h1@, e0_decoded@, e1_decoded@));
        lemma_byte_facts(ct_ok, w_ok);
        lemma_byte_facts(fo_mask, decode_ok);
        assert((mask == 0xFF) == stego_accepts(seed@, digits@));
        assert(mask == 0 || mask == 0xFF);
    }
    let real_key = stego_error_key(&e0_decoded, &e1_decoded);
    let reject_key = rejection_key_stego(seed, digits);
    let session_key = select_key(&real_key, &reject_key, mask);
    // The payload bits: three per small digit, one per large digit.
    let mut payload_bits: Vec<u8> = Vec::new();
    let mut i: usize = 0;
    while i < n2
        invariant
            n2 == 2 * M,
            i <= n2,
            digits@.len() == SUPERBLOCK_DIGITS,
            payload_bits@ == read_bits(digits@, i as int),
        decreases n2 - i,
    {
        let d = digits[i];
        let ghost before = payload_bits@;
        if d <= 7 {
            payload_bits.push(d / 4);
            payload_bits.push((d / 2) % 2);
            payload_bits.push(d % 2);
        } else {
            payload_bits.push(d - 8);
        }
        proof {
            assert(payload_bits@ =~= before + digit_bits(d));
        }
        i = i + 1;
    }
    let ghost pbits = payload_bits@;
    proof {
        lemma_read_bits_binary(digits@, 2 * M);
    }
    // Bits to bytes, most significant first.
    let total = payload_bits.len();
    let nbytes = total / 8;
    let mut payload_bytes: Vec<u8> = Vec::new();
    let mut k: usize = 0;
    while k < nbytes
        invariant
            pbits == payload_bits@,
            total == pbits.len(),
            nbytes == pbits.len() / 8,
            k <= nbytes,
            forall|j: int| 0 <= j < pbits.len() ==> #[trigger] pbits[j] <= 1,
            payload_bytes@.len() == k,
            forall|j: int| 0 <= j < k ==> #[trigger] payload_bytes@[j] == bytes_of_bits(pbits)[j],
        decreases nbytes - k,
    {
        let mut b: u8 = 0;
        let mut c: usize = 0;
        while c < 8
            invariant
                pbits == payload_bits@,
                total == pbits.len(),
                k < nbytes,
                nbytes == pbits.len() / 8,
                c <= 8,
                forall|j: int| 0 <= j < pbits.len() ==> #[trigger] pbits[j] <= 1,
                b == byte_part(pbits, 8 * k, c as int),
                b < two_to(c as int),
            decreases 8 - c,
        {
            proof {
                lemma_two_to(c as int);
                assert(8 * k + 8 <= pbits.len()) by (nonlinear_arith)
                    requires
                        k < nbytes,
                        nbytes == pbits.len() / 8,
                ;
            }
            let bit = payload_bits[8 * k + c];
            b = 2 * b + bit;
            c = c + 1;
        }
        payload_bytes.push(b);
        k = k + 1;
    }
    proof {
        assert(payload_bytes@ =~= read_payload(digits@));
    }
    zeroize_vec(&mut payload_bits);
    // Parse: length (4 bytes) || nonce (12 bytes) || ciphertext || tag (16 bytes).
    let plen = payload_bytes.len();
    if plen < 32 {
        return Ok(Vec::new());
    }
    let b0 = payload_bytes[0] as u32;
    let b1 = payload_bytes[1] as u32;
    let b2 = payload_bytes[2] as u32;
    let b3 = payload_bytes[3] as u32;
    let ct_len32: u32 = b0 | (b1 << 8) | (b2 << 16) | (b3 << 24);
    proof {
        assert(b0 | (b1 << 8u32) | (b2 << 16u32) | (b3 << 24u32) == b0 + 256 * b1 + 65536 * b2 + 16777216 * b3)
            by (bit_vector)
            requires
                b0 < 256,
                b1 < 256,
                b2 < 256,
                b3 < 256,
        ;
    }
    let ct_len = ct_len32 as usize;
    let len_ok = ct_len <= MAX_PAYLOAD_BYTES && ct_len + 32 <= plen;
    let use_len: usize = if len_ok { ct_len } else { 0 };
    let mut nonce = [0u8; 12];
    for j in 0..12
        invariant
            plen == payload_bytes@.len(),
            plen >= 32,
            forall|q: int| 0 <= q < j ==> #[trigger] nonce@[q] == payload_bytes@[4 + q],
    {
        nonce[j] = payload_bytes[4 + j];
    }
    let ciphertext = slice_subrange(payload_bytes.as_slice(), 16, 16 + use_len);
    let mut tag = [0u8; 16];
    for j in 0..16
        invariant
            plen == payload_bytes@.len(),
            use_len + 32 <= plen,
            forall|q: int| 0 <= q < j ==> #[trigger] tag@[q] == payload_bytes@[16 + use_len + q],
    {
        tag[j] = payload_bytes[16 + use_len + j];
    }
    proof {
        let p = read_payload(digits@);
        assert(nonce@ =~= p.subrange(4, 16));
        assert(tag@ =~= p.subrange(16 + use_len, 32 + use_len));
        assert(ciphertext@ =~= p.subrange(16, 16 + use_len));
    }
    let opened = aes256gcm_decrypt(&session_key, &nonce, ciphertext, &tag);
    if mask == 0xFF && len_ok {
        match opened {
            Some(m) => Ok(m),
            None => Ok(Vec::new()),
        }
    } else {
        Ok(Vec::new())
    }
}

/// `2^c`.
pub open spec fn two_to(c: int) -> int
    decreases c,
{
    if c <= 0 {
        1
    } else {
        2 * two_to(c - 1)
    }
}

/// `2^(c + 1) == 2 * 2^c <= 256` for `c < 8`.
proof fn lemma_two_to(c: int)
    requires
        0 <= c < 8,
    ensures
        two_to(c + 1) == 2 * two_to(c),
        two_to(c + 1) <= 256,
{
    reveal_with_fuel(two_to, 9);
}

/// The eight bits of a byte, most significant first, make the byte.
proof fn lemma_byte_bits(b: u8)
    ensures
        2 * (2 * (2 * (2 * (2 * (2 * (2 * ((b >> 7u8) & 1) + ((b >> 6u8) & 1)) + ((b >> 5u8) & 1)) + ((b >> 4u8)
            & 1)) + ((b >> 3u8) & 1)) + ((b >> 2u8) & 1)) + ((b >> 1u8) & 1)) + ((b >> 0u8) & 1) == b,
{
    assert(2 * (2 * (2 * (2 * (2 * (2 * (2 * ((b >> 7u8) & 1) + ((b >> 6u8) & 1)) + ((b >> 5u8) & 1)) + ((b >> 4u8)
        & 1)) + ((b >> 3u8) & 1)) + ((b >> 2u8) & 1)) + ((b >> 1u8) & 1)) + ((b >> 0u8) & 1) == b) by (bit_vector);
}

/// A bit string that starts with the bits of `p` gives back the bytes of `p`.
proof fn lemma_payload_prefix(bits: Seq<u8>, p: Seq<u8>)
    requires
        payload_bits_of(p).len() <= bits.len(),
        forall|k: int| 0 <= k < payload_bits_of(p).len() ==> #[trigger] bits[k] == payload_bits_of(p)[k],
    ensures
        p.len() <= bytes_of_bits(bits).len(),
        forall|k: int| 0 <= k < p.len() ==> #[trigger] bytes_of_bits(bits)[k] == p[k],
{
    let pb = payload_bits_of(p);
    assert forall|k: int| 0 <= k < p.len() implies #[trigger] bytes_of_bits(bits)[k] == p[k] by {
        reveal_with_fuel(byte_part, 9);
        assert forall|c: int| 0 <= c < 8 implies #[trigger] bits[8 * k + c] == (p[k] >> (7 - c) as u8) & 1 by {
            assert(bits[8 * k + c] == pb[8 * k + c]);
            assert((8 * k + c) / 8 == k && (8 * k + c) % 8 == c);
        }
        assert(bits[8 * k + 0] == (p[k] >> 7u8) & 1);
        assert(bits[8 * k + 1] == (p[k] >> 6u8) & 1);
        assert(bits[8 * k + 2] == (p[k] >> 5u8) & 1);
        assert(bits[8 * k + 3] == (p[k] >> 4u8) & 1);
        assert(bits[8 * k + 4] == (p[k] >> 3u8) & 1);
        assert(bits[8 * k + 5] == (p[k] >> 2u8) & 1);
        assert(bits[8 * k + 6] == (p[k] >> 1u8) & 1);
        assert(bits[8 * k + 7] == (p[k] >> 0u8) & 1);
        lemma_byte_bits(p[k]);
    }
}

/// The little-endian length field reads back as the length.
proof fn lemma_le32_length(c: u32)
    ensures
        payload_length(le32(c)) == c,
{
    let b0 = (c & 0xff) as u8;
    let b1 = ((c >> 8) & 0xff) as u8;
    let b2 = ((c >> 16) & 0xff) as u8;
    let b3 = ((c >> 24) & 0xff) as u8;
    assert(b0 + 256 * b1 + 65536 * b2 + 16777216 * b3 == c) by (bit_vector)
        requires
            b0 == (c & 0xff) as u8,
            b1 == ((c >> 8) & 0xff) as u8,
            b2 == ((c >> 16) & 0xff) as u8,
            b3 == ((c >> 24) & 0xff) as u8,
    ;
}

/// The mask hides the error: with `h0 * pk == h1`, the codeword
/// `(pk * c1, c1)` has syndrome zero, so the mask has the error's syndrome.
proof fn lemma_mask_syndrome(h0: Seq<bool>, h1: Seq<bool>, pk: Seq<bool>, e0: Seq<bool>, e1: Seq<bool>, c1: Seq<bool>)
    requires
        h0.len() == M,
        h1.len() == M,
        ring_mul(h0, pk) == h1,
    ensures
        syndrome(h0, h1, stego_mask0(pk, e0, c1), stego_mask1(e1, c1)) == syndrome(h0, h1, e0, e1),
{
    let x = ring_mul(pk, c1);
    lemma_ring_mul_commutative(h0, ring_add(x, e0));
    lemma_ring_mul_distributes(x, e0, h0);
    lemma_ring_mul_commutative(x, h0);
    lemma_ring_mul_associative(h0, pk, c1);
    lemma_ring_mul_commutative(e0, h0);
    lemma_ring_mul_commutative(h1, ring_add(c1, e1));
    lemma_ring_mul_distributes(c1, e1, h1);
    lemma_ring_mul_commutative(c1, h1);
    lemma_ring_mul_commutative(e1, h1);
    let a = ring_mul(h1, c1);
    let b = ring_mul(h0, e0);
    let c = ring_mul(h1, e1);
    assert(ring_add(ring_add(a, b), ring_add(a, c)) =~= ring_add(b, c));
}

/// The steganographic round trip: a superblock that hides `msg` for the
/// public key of `seed` gives `msg` back to the holder of `seed`, whenever the
/// decoder recovers the hidden error from its syndrome.
pub proof fn lemma_stego_roundtrip(
    seed: Seq<u8>,
    pk: Seq<bool>,
    msg: Seq<u8>,
    digits: Seq<u8>,
    e0: Seq<bool>,
    e1: Seq<bool>,
    c1: Seq<bool>,
    nonce: Seq<u8>,
)
    requires
        public_key_of(seed, pk),
        stego_encoding(pk, msg, digits, e0, e1, c1, nonce),
        trial_recovers(derived_poly(seed, 0), derived_poly(seed, 1), e0, e1),
    ensures
        stego_input_valid(digits),
        stego_decapsulated(seed, digits) == msg,
{
    let h0 = derived_poly(seed, 0);
    let h1 = derived_poly(seed, 1);
    lemma_derived_weight(seed, 0);
    lemma_derived_weight(seed, 1);
    let m0 = stego_mask0(pk, e0, c1);
    let m1 = stego_mask1(e1, c1);
    assert forall|i: int| 0 <= i < M implies #[trigger] read_mask0(digits)[i] == m0[i] by {
        assert((digits[i] > 7) == mask_bit(m0, m1, i));
    }
    assert forall|i: int| 0 <= i < M implies #[trigger] read_mask1(digits)[i] == m1[i] by {
        assert((digits[M + i] > 7) == mask_bit(m0, m1, M + i));
    }
    assert(read_mask0(digits) =~= m0);
    assert(read_mask1(digits) =~= m1);
    lemma_mask_syndrome(h0, h1, pk, e0, e1, c1);
    assert(stego_decoded(seed, digits) == (e0, e1));
    assert(stego_accepts(seed, digits));
    let key = stego_key(e0, e1);
    let sealed = aes256gcm_seal(key, nonce, msg);
    let payload = stego_payload(key, nonce, msg);
    let len = msg.len() as int;
    lemma_payload_prefix(read_bits(digits, 2 * M), payload);
    let p = read_payload(digits);
    assert(payload.len() == 32 + len);
    assert forall|k: int| 0 <= k < 4 implies #[trigger] p[k] == le32(msg.len() as u32)[k] by {
        assert(p[k] == payload[k]);
    }
    lemma_le32_length(msg.len() as u32);
    assert(payload_length(p) == len);
    assert forall|k: int| 0 <= k < 12 implies #[trigger] p.subrange(4, 16)[k] == nonce[k] by {
        assert(p[4 + k] == payload[4 + k]);
    }
    assert forall|k: int| 0 <= k < len implies #[trigger] p.subrange(16, 16 + len)[k] == sealed.take(len)[k] by {
        assert(p[16 + k] == payload[16 + k]);
    }
    assert forall|k: int| 0 <= k < 16 implies #[trigger] p.subrange(16 + len, 32 + len)[k] == sealed.skip(len)[k] by {
        assert(p[16 + len + k] == payload[16 + len + k]);
    }
    assert(p.subrange(4, 16) =~= nonce);
    assert(p.subrange(16, 16 + len) =~= sealed.take(len));
    assert(p.subrange(16 + len, 32 + len) =~= sealed.skip(len));
}

} // verus!

//! Derivation of the secret sparse polynomials from a seed (SHAKE-128 with
//! rejection sampling and a data-independent selection scan), and the girth
//! heuristic of key validation.

use vstd::prelude::*;
use crate::bits::{count_true, lemma_word_facts};
use crate::ring::{lemma_ones_prefix_shape, ones_prefix};
use crate::error::ArcResult;
use crate::parameters::{M, ROW_WEIGHT, SEED_BYTES};
use crate::polynomial::Polynomial;
use crate::primitives::zeroize_vec;
use crate::error::ArcError;
use sha3::digest::{ExtendableOutput, Update, XofReader};
use sha3::Shake128;

verus! {

/// The first `len` bytes of SHAKE-128 applied to `input`.
pub uninterp spec fn shake128(input: Seq<u8>, len: nat) -> Seq<u8>;

/// `sha3::Shake128`: absorbs `seed` and squeezes `length` bytes, a function
/// of the two arguments alone.
#[verifier::external_body]
pub fn shake128_xof(seed: &[u8], length: usize) -> (r: Vec<u8>)
    ensures
        r@.len() == length,
        r@ == shake128(seed@, length as nat),
{
    let mut hasher = Shake128::default();
    hasher.update(seed);
    let mut reader = hasher.finalize_xof();
    let mut buf = vec![0u8; length];
    reader.read(&mut buf);
    buf
}

/// Little-endian bytes of a 32-bit counter.
pub open spec fn le32(c: u32) -> Seq<u8> {
    seq![(c & 0xff) as u8, ((c >> 8) & 0xff) as u8, ((c >> 16) & 0xff) as u8, ((c >> 24) & 0xff) as u8]
}

/// Byte `i` of the sampling stream: `bytes`, followed by 64-byte blocks
/// SHAKE-128(seed || le32(c)) for c = 0, 1, 2, ...
pub open spec fn stream_byte(bytes: Seq<u8>, seed: Seq<u8>, i: int) -> u8 {
    if i < bytes.len() {
        bytes[i]
    } else {
        let o = i - bytes.len();
        shake128(seed + le32((o / 64) as u32), 64)[o % 64]
    }
}

/// The `g`-th little-endian 16-bit candidate of the stream.
pub open spec fn stream_word(bytes: Seq<u8>, seed: Seq<u8>, g: int) -> int {
    stream_byte(bytes, seed, 2 * g) as int + 256 * stream_byte(bytes, seed, 2 * g + 1) as int
}

/// Candidate `a` (of ten) of selection `idx`.
pub open spec fn attempt_word(bytes: Seq<u8>, seed: Seq<u8>, idx: int, a: int) -> int {
    stream_word(bytes, seed, 10 * idx + a)
}

/// The word of selection `idx`: the first of its ten candidates below
/// `bound` (rejection sampling), or its last candidate when none is.
pub open spec fn chosen_word(bytes: Seq<u8>, seed: Seq<u8>, idx: int, bound: int, a: int) -> int
    decreases 10 - a,
{
    if a >= 9 || attempt_word(bytes, seed, idx, a) < bound {
        attempt_word(bytes, seed, idx, a)
    } else {
        chosen_word(bytes, seed, idx, bound, a + 1)
    }
}

/// The `t`-th (from 0) free position of `avail`.
pub open spec fn kth_free(avail: Seq<bool>, t: int) -> int {
    choose|k: int| 0 <= k < avail.len() && avail[k] && count_true(avail.take(k)) == t
}

/// Free positions and chosen positions after `n` selections out of `modulus`.
pub open spec fn selection(bytes: Seq<u8>, seed: Seq<u8>, n: int, modulus: int) -> (
    Seq<bool>,
    Seq<usize>,
)
    decreases n,
{
    if n <= 0 {
        (Seq::new(modulus as nat, |i: int| true), Seq::empty())
    } else {
        let prev = selection(bytes, seed, n - 1, modulus);
        let free = count_true(prev.0);
        let word = chosen_word(bytes, seed, n - 1, 65536int - 65536int % (free as int), 0);
        let k = kth_free(prev.0, word % (free as int));
        (prev.0.update(k, false), prev.1.push(k as usize))
    }
}

/// The sparse polynomial drawn from a seed and a domain tag (0 for h0, 1 for h1).
pub open spec fn derived_poly(seed: Seq<u8>, tag: u8) -> Seq<bool> {
    let s = seed.push(tag);
    let chosen = selection(shake128(s, 90), s, ROW_WEIGHT as int, M as int).1;
    Seq::new(M as nat, |i: int| chosen.contains(i as usize))
}

/// The domain tags: the first secret block is drawn from SHAKE-128 of the
/// seed followed by the byte 0x00, the second from the seed followed by the
/// byte 0x01; each holds the `ROW_WEIGHT` positions selected from 90 bytes
/// of that output.
pub proof fn lemma_derived_domain_tags(seed: Seq<u8>)
    ensures
        derived_poly(seed, 0) == Seq::new(
            M as nat,
            |i: int|
                selection(shake128(seed + seq![0x00u8], 90), seed + seq![0x00u8], ROW_WEIGHT as int, M as int).1.contains(
                    i as usize,
                ),
        ),
        derived_poly(seed, 1) == Seq::new(
            M as nat,
            |i: int|
                selection(shake128(seed + seq![0x01u8], 90), seed + seq![0x01u8], ROW_WEIGHT as int, M as int).1.contains(
                    i as usize,
                ),
        ),
{
    assert(seed.push(0u8) =~= seed + seq![0x00u8]);
    assert(seed.push(1u8) =~= seed + seq![0x01u8]);
}

/// The free map of a 0/1 availability vector.
pub open spec fn free_map(v: Seq<u8>) -> Seq<bool> {
    Seq::new(v.len(), |k: int| v[k] == 1)
}

/// Skipping rejected candidates does not change the chosen word.
proof fn lemma_chosen_skip(bytes: Seq<u8>, seed: Seq<u8>, idx: int, bound: int, a: int)
    requires
        0 <= a <= 9,
        forall|b: int| 0 <= b < a ==> #[trigger] attempt_word(bytes, seed, idx, b) >= bound,
    ensures
        chosen_word(bytes, seed, idx, bound, 0) == chosen_word(bytes, seed, idx, bound, a),
    decreases a,
{
    if a > 0 {
        lemma_chosen_skip(bytes, seed, idx, bound, a - 1);
    }
}

/// Branch-free equality test: the flag is 1 exactly when `x == t` and `a == 1`.
proof fn lemma_eq_mask(x: usize, t: usize, a: usize)
    requires
        x < 0x10_0000,
        t < 0x10_0000,
        a <= 1,
    ensures
        ((((x ^ t) | (a ^ 1)) as u64).wrapping_sub(1) >> 63) == (if x == t && a == 1 {
            1u64
        } else {
            0u64
        }),
        0usize.wrapping_sub(1) == usize::MAX,
        0usize.wrapping_sub(0) == 0usize,
{
    let d = (x ^ t) | (a ^ 1);
    assert(d < 0x20_0000 && (d == 0 <==> (x == t && a == 1))) by (bit_vector)
        requires
            x < 0x10_0000,
            t < 0x10_0000,
            a <= 1,
            d == (x ^ t) | (a ^ 1),
    ;
    if d == 0 {
        lemma_word_facts(0u64, 0u64);
    } else {
        let e = (d - 1) as u64;
        lemma_word_facts(0u64, e);
    }
}

/// Branch-free selection with an all-zeros or all-ones mask.
proof fn lemma_select(c: u64, w: u64, m: u64)
    requires
        m == 0 || m == 0xFFFF_FFFF_FFFF_FFFFu64,
    ensures
        (c & m) | (w & !m) == (if m == 0 { w } else { c }),
        c & !m == (if m == 0 { c } else { 0u64 }),
{
    assert((c & m) | (w & !m) == (if m == 0 { w } else { c }) && c & !m == (if m == 0 {
        c
    } else {
        0u64
    })) by (bit_vector)
        requires
            m == 0 || m == 0xFFFF_FFFF_FFFF_FFFFu64,
    ;
}

/// Draws `count` distinct positions below `modulus` from the stream given by
/// `bytes` and `seed_for_extend`, and returns the polynomial with ones there.
/// Every selection scans all `modulus` positions with masks.
fn positions_to_poly(bytes: &[u8], seed_for_extend: &[u8], count: usize, modulus: usize) -> (r:
    ArcResult<Polynomial>)
    requires
        count <= modulus <= M,
        bytes@.len() <= 0x1_0000,
        seed_for_extend@.len() <= 0x1_0000,
    ensures
        r matches Ok(p) && p@ == Seq::new(
            M as nat,
            |i: int| selection(bytes@, seed_for_extend@, count as int, modulus as int).1.contains(
                i as usize,
            ),
        ),
{
    let ghost bs = bytes@;
    let ghost sd = seed_for_extend@;
    let mut buf: Vec<u8> = Vec::new();
    buf.extend_from_slice(bytes);
    let mut byte_idx: usize = 0;
    let mut extend_counter: u32 = 0;
    let mut available: Vec<u8> = vec![1u8; modulus];
    let mut positions: Vec<usize> = vec![0usize; count];
    let mut pos_count = 0usize;
    proof {
        assert(free_map(available@) =~= selection(bs, sd, 0, modulus as int).0);
        assert forall|i: int| 0 <= i < buf@.len() implies buf@[i] == stream_byte(bs, sd, i) by {
        }
    }
    let mut idx: usize = 0;
    while idx < count
        invariant
            count <= modulus <= M,
            bs == bytes@,
            sd == seed_for_extend@,
            bs.len() <= 0x1_0000,
            sd.len() <= 0x1_0000,
            idx <= count,
            pos_count == idx,
            positions@.len() == count,
            available@.len() == modulus,
            forall|k: int| 0 <= k < modulus ==> #[trigger] available@[k] <= 1,
            free_map(available@) == selection(bs, sd, idx as int, modulus as int).0,
            positions@.take(idx as int) == selection(bs, sd, idx as int, modulus as int).1,
            forall|u: int| 0 <= u < count ==> #[trigger] positions@[u] < M,
            byte_idx == 20 * idx,
            buf@.len() == bs.len() + 64 * extend_counter,
            64 * extend_counter <= byte_idx + 64,
            byte_idx <= buf@.len(),
            forall|i: int| 0 <= i < buf@.len() ==> #[trigger] buf@[i] == stream_byte(bs, sd, i),
        decreases count - idx,
    {
        let ghost free0 = free_map(available@);
        proof {
            lemma_selection_shape(bs, sd, idx as int, modulus as int);
        }
        let mut avail_count: usize = 0;
        let mut k: usize = 0;
        while k < modulus
            invariant
                k <= modulus <= M,
                available@.len() == modulus,
                free0 == free_map(available@),
                forall|kk: int| 0 <= kk < modulus ==> #[trigger] available@[kk] <= 1,
                avail_count == count_true(free0.take(k as int)),
                avail_count <= k,
            decreases modulus - k,
        {
            proof {
                lemma_count_take_step(free0, k as int);
            }
            avail_count = avail_count + available[k] as usize;
            k = k + 1;
        }
        proof {
            assert(free0.take(modulus as int) == free0);
        }
        let max_valid = 65536 - (65536 % avail_count);
        let ghost bound = max_valid as int;

        let mut word = 0usize;
        let mut word_valid = 0u8;
        let mut last_candidate = 0usize;
        let mut attempt: usize = 0;
        while attempt < 10
            invariant
                idx < count <= modulus <= M,
                bs == bytes@,
                sd == seed_for_extend@,
                bs.len() <= 0x1_0000,
                sd.len() <= 0x1_0000,
                attempt <= 10,
                bound == max_valid,
                byte_idx == 20 * idx + 2 * attempt,
                buf@.len() == bs.len() + 64 * extend_counter,
                64 * extend_counter <= byte_idx + 64,
                byte_idx <= buf@.len(),
                forall|i: int| 0 <= i < buf@.len() ==> #[trigger] buf@[i] == stream_byte(bs, sd, i),
                word_valid <= 1,
                word_valid == 1 ==> word == chosen_word(bs, sd, idx as int, bound, 0),
                word_valid == 0 ==> forall|b: int|
                    0 <= b < attempt ==> #[trigger] attempt_word(bs, sd, idx as int, b) >= bound,
                attempt > 0 ==> last_candidate == attempt_word(bs, sd, idx as int, attempt - 1),
            decreases 10 - attempt,
        {
            if byte_idx + 1 >= buf.len() {
                let mut ext_input: Vec<u8> = Vec::new();
                ext_input.extend_from_slice(seed_for_extend);
                ext_input.push((extend_counter & 0xff) as u8);
                ext_input.push(((extend_counter >> 8) & 0xff) as u8);
                ext_input.push(((extend_counter >> 16) & 0xff) as u8);
                ext_input.push(((extend_counter >> 24) & 0xff) as u8);
                proof {
                    assert(ext_input@ =~= sd + le32(extend_counter));
                }
                let ghost old_len = buf@.len();
                let ghost c = extend_counter;
                let extended = shake128_xof(&ext_input, 64);
                extend_counter = extend_counter + 1;
                buf.extend_from_slice(&extended);
                proof {
                    assert forall|i: int| 0 <= i < buf@.len() implies #[trigger] buf@[i]
                        == stream_byte(bs, sd, i) by {
                        if i >= old_len {
                            let o = i - bs.len();
                            assert(o / 64 == c as int && o % 64 == i - old_len);
                        }
                    }
                }
            }
            let candidate = buf[byte_idx] as usize + 256 * (buf[byte_idx + 1] as usize);
            byte_idx = byte_idx + 2;
            proof {
                let g = 10 * idx + attempt;
                assert(2 * g == byte_idx - 2);
                assert(candidate == stream_word(bs, sd, g));
                assert(candidate == attempt_word(bs, sd, idx as int, attempt as int));
            }

            let is_valid = (candidate < max_valid) as u8;
            let not_found_yet = word_valid ^ 1;
            let update_mask = is_valid & not_found_yet;
            let update = 0u64.wrapping_sub(update_mask as u64);
            proof {
                assert(is_valid <= 1 && (word_valid ^ 1) == (if word_valid == 1 { 0u8 } else { 1u8 })
                    && (is_valid & (if word_valid == 1 { 0u8 } else { 1u8 })) == (if is_valid == 1
                    && word_valid == 0 { 1u8 } else { 0u8 }) && (word_valid | is_valid) == (if is_valid == 1 || word_valid == 1 { 1u8 } else { 0u8 }))
                    by (bit_vector)
                    requires
                        is_valid <= 1,
                        word_valid <= 1,
                ;
                lemma_select(candidate as u64, word as u64, update);
                if update_mask == 1 {
                    lemma_chosen_skip(bs, sd, idx as int, bound, attempt as int);
                }
            }
            word = ((candidate as u64 & update) | (word as u64 & !update)) as usize;
            word_valid = word_valid | is_valid;
            last_candidate = candidate;
            attempt = attempt + 1;
        }
        if word_valid == 0 {
            proof {
                lemma_chosen_skip(bs, sd, idx as int, bound, 9);
            }
            word = last_candidate;
        }

        let target = word % avail_count;
        let ghost sel = kth_free(free0, target as int);
        proof {
            lemma_kth_free_exists(free0, target as int);
            let kk = choose|kk: int| 0 <= kk < free0.len() && free0[kk] && count_true(free0.take(kk))
                == target;
            lemma_kth_free_unique(free0, target as int, kk);
        }
        let ghost avail0 = available@;
        let ghost pos0 = positions@;
        let mut cumsum = 0usize;
        let mut k: usize = 0;
        while k < modulus
            invariant
                k <= modulus <= M,
                idx < count,
                pos_count == idx,
                positions@.len() == count,
                available@.len() == modulus,
                avail0.len() == modulus,
                free0 == free_map(avail0),
                forall|kk: int| 0 <= kk < modulus ==> #[trigger] avail0[kk] <= 1,
                0 <= sel < modulus,
                sel == kth_free(free0, target as int),
                free0[sel],
                count_true(free0.take(sel)) == target,
                target < 0x10_0000,
                cumsum == count_true(free0.take(k as int)),
                cumsum <= k,
                forall|kk: int|
                    0 <= kk < modulus ==> #[trigger] available@[kk] == (if kk < k && kk == sel {
                        0u8
                    } else {
                        avail0[kk]
                    }),
                forall|u: int|
                    0 <= u < count && u != idx ==> #[trigger] positions@[u] == pos0[u],
                forall|u: int| 0 <= u < count ==> #[trigger] positions@[u] < M,
                k > sel ==> positions@[idx as int] == sel,
            decreases modulus - k,
        {
            let is_avail = available[k] as usize;
            let diff = (cumsum ^ target) | (available[k] as usize ^ 1);
            let is_target = 0u64.wrapping_sub((diff as u64).wrapping_sub(1) >> 63);
            proof {
                lemma_eq_mask(cumsum, target, available@[k as int] as usize);
                lemma_count_take_step(free0, k as int);
                if cumsum == target && avail0[k as int] == 1 {
                    assert(free0[k as int]);
                    assert(count_true(free0.take(k as int)) == target as int);
                    lemma_kth_free_unique(free0, target as int, k as int);
                    assert(sel == k as int);
                }
                if k as int == sel {
                    assert(cumsum == target);
                }
                assert(available@[k as int] == avail0[k as int]);
                assert(free0[k as int] == (avail0[k as int] == 1));
                let flag = (diff as u64).wrapping_sub(1) >> 63;
                assert(flag == (if cumsum == target && avail0[k as int] == 1 { 1u64 } else { 0u64 }));
                assert(0u64.wrapping_sub(1) == 0xFFFF_FFFF_FFFF_FFFFu64);
                assert(0u64.wrapping_sub(0) == 0u64);
                assert(is_target == 0u64.wrapping_sub(flag));
                if k as int == sel {
                    assert(avail0[k as int] == 1);
                    assert(flag == 1);
                } else {
                    assert(!(cumsum == target && avail0[k as int] == 1));
                    assert(flag == 0);
                }
                assert(is_target == (if k as int == sel { 0xFFFF_FFFF_FFFF_FFFFu64 } else { 0u64 }));
            }
            let old_val = positions[pos_count];
            proof {
                lemma_select(k as u64, old_val as u64, is_target);
                lemma_select(available@[k as int] as u64, 0, is_target);
            }
            let new_pos = ((k as u64 & is_target) | (old_val as u64 & !is_target)) as usize;
            let new_avail = ((available[k] as u64) & !is_target) as u8;
            proof {
                assert(new_pos == (if k as int == sel { k } else { old_val }));
                assert(new_avail == (if k as int == sel { 0u8 } else { available@[k as int] }));
            }
            positions.set(pos_count, new_pos);
            available.set(k, new_avail);
            cumsum = cumsum + is_avail;
            k = k + 1;
        }
        proof {
            let sel_next = selection(bs, sd, idx + 1, modulus as int);
            assert(free_map(available@) =~= free0.update(sel, false));
            assert(positions@.take(idx + 1) =~= positions@.take(idx as int).push(sel as usize));
            assert(positions@.take(idx as int) =~= pos0.take(idx as int));
        }
        pos_count = pos_count + 1;
        idx = idx + 1;
    }
    positions.truncate(pos_count);
    proof {
        lemma_selection_shape(bs, sd, count as int, modulus as int);
        assert(positions@ =~= selection(bs, sd, count as int, modulus as int).1);
    }
    Ok(Polynomial::from_positions(positions.as_slice()))
}

/// Derives the secret polynomials `h0` and `h1` (each with `ROW_WEIGHT`
/// ones) from a seed, with domain tags 0 and 1.
pub fn derive_secret_polynomials(seed: &[u8; SEED_BYTES]) -> (r: ArcResult<(Polynomial, Polynomial)>)
    ensures
        r matches Ok((h0, h1)) && h0@ == derived_poly(seed@, 0) && h1@ == derived_poly(seed@, 1),
        r matches Ok((h0, h1)) && count_true(h0@) == ROW_WEIGHT && count_true(h1@) == ROW_WEIGHT,
{
    let mut seed_h0: Vec<u8> = Vec::new();
    seed_h0.extend_from_slice(seed.as_slice());
    seed_h0.push(0x00);
    proof {
        assert(seed_h0@ =~= seed@.push(0));
    }
    let xof_h0 = shake128_xof(seed_h0.as_slice(), 90);
    let h0 = positions_to_poly(xof_h0.as_slice(), seed_h0.as_slice(), ROW_WEIGHT, M)?;
    proof {
        lemma_derived_weight(seed@, 0);
    }
    zeroize_vec(&mut seed_h0);

    let mut seed_h1: Vec<u8> = Vec::new();
    seed_h1.extend_from_slice(seed.as_slice());
    seed_h1.push(0x01);
    proof {
        assert(seed_h1@ =~= seed@.push(1));
    }
    let xof_h1 = shake128_xof(seed_h1.as_slice(), 90);
    let h1 = positions_to_poly(xof_h1.as_slice(), seed_h1.as_slice(), ROW_WEIGHT, M)?;
    proof {
        lemma_derived_weight(seed@, 1);
    }
    zeroize_vec(&mut seed_h1);

    Ok((h0, h1))
}

/// A derived polynomial has exactly `ROW_WEIGHT` ones.
pub proof fn lemma_derived_weight(seed: Seq<u8>, tag: u8)
    ensures
        count_true(derived_poly(seed, tag)) == ROW_WEIGHT,
        derived_poly(seed, tag).len() == M,
{
    let s = seed.push(tag);
    lemma_selection_shape(shake128(s, 90), s, ROW_WEIGHT as int, M as int);
    crate::ring::lemma_count_positions(selection(shake128(s, 90), s, ROW_WEIGHT as int, M as int).1);
}

/// The triple `(i, j, k)` of ones closes a 4-cycle in the Tanner graph:
/// `ones[i] + ones[j] - ones[k]` (mod M) is a further one, distinct from the three.
pub open spec fn four_cycle_at(ones: Seq<usize>, h: Seq<bool>, i: int, j: int, k: int) -> bool {
    let p4 = (ones[i] + ones[j] + M - ones[k]) % (M as int);
    &&& k != i
    &&& k != j
    &&& h[p4]
    &&& p4 != ones[i]
    &&& p4 != ones[j]
    &&& p4 != ones[k]
}

/// Some triple of ones closes a 4-cycle.
pub open spec fn has_four_cycle(ones: Seq<usize>, h: Seq<bool>) -> bool {
    exists|i: int, j: int, k: int|
        0 <= i < j < ones.len() && 0 <= k < ones.len() && #[trigger] four_cycle_at(ones, h, i, j, k)
}

/// Girth heuristic: true when `min_girth <= 4`, when the polynomial has fewer
/// than three ones, or when no triple of ones closes a 4-cycle. Every triple
/// is examined (no early exit).
pub fn check_girth(poly: &Polynomial, min_girth: usize) -> (r: bool)
    ensures
        r == (min_girth <= 4 || ones_prefix(poly@, M as int).len() < 3 || !has_four_cycle(
            ones_prefix(poly@, M as int),
            poly@,
        )),
{
    if min_girth <= 4 {
        return true;
    }
    proof {
        poly.lemma_view();
    }
    let mut poly_bits = [0u8; M];
    let mut i: usize = 0;
    while i < M
        invariant
            i <= M,
            forall|t: int| 0 <= t < i ==> #[trigger] poly_bits@[t] == (if poly@[t] { 1u8 } else { 0u8 }),
        decreases M - i,
    {
        poly_bits[i] = poly.get_bit(i);
        i = i + 1;
    }
    let mut ones: Vec<usize> = Vec::new();
    let mut p: usize = 0;
    while p < M
        invariant
            p <= M,
            poly@.len() == M,
            forall|t: int| 0 <= t < M ==> #[trigger] poly_bits@[t] == (if poly@[t] { 1u8 } else { 0u8 }),
            ones@ == ones_prefix(poly@, p as int),
        decreases M - p,
    {
        if poly_bits[p] == 1 {
            ones.push(p);
        }
        p = p + 1;
    }
    let ghost h = poly@;
    proof {
        lemma_ones_prefix_shape(h, M as int);
    }
    if ones.len() < 3 {
        return true;
    }
    let mut ones_bitset = [0u8; M];
    let mut t: usize = 0;
    while t < ones.len()
        invariant
            t <= ones@.len(),
            ones@ == ones_prefix(h, M as int),
            h.len() == M,
            forall|u: int| 0 <= u < ones@.len() ==> (#[trigger] ones@[u]) < M && h[ones@[u] as int],
            forall|x: int| 0 <= x < M ==> #[trigger] ones_bitset@[x] <= 1,
            forall|x: int| 0 <= x < M && ones_bitset@[x] == 1 ==> h[x],
            forall|u: int| 0 <= u < t ==> ones_bitset@[#[trigger] ones@[u] as int] == 1,
        decreases ones@.len() - t,
    {
        ones_bitset[ones[t]] = 1;
        t = t + 1;
    }
    proof {
        assert forall|x: int| 0 <= x < M && h[x] implies ones_bitset@[x] == 1 by {
            assert(ones@.contains(x as usize));
            let u = choose|u: int| 0 <= u < ones@.len() && ones@[u] == x as usize;
            assert(ones_bitset@[ones@[u] as int] == 1);
        }
    }
    let n = ones.len();
    let mut has_4cycle = 0u8;
    let mut i: usize = 0;
    while i < n
        invariant
            n == ones@.len(),
            n >= 3,
            i <= n,
            ones@ == ones_prefix(h, M as int),
            h.len() == M,
            forall|u: int| 0 <= u < n ==> (#[trigger] ones@[u]) < M,
            forall|x: int| 0 <= x < M ==> (#[trigger] ones_bitset@[x] == 1) == h[x],
            has_4cycle <= 1,
            has_4cycle == 1 ==> has_four_cycle(ones@, h),
            has_4cycle == 0 ==> forall|a: int, b: int, c: int|
                0 <= a < i && a < b < n && 0 <= c < n ==> !#[trigger] four_cycle_at(ones@, h, a, b, c),
        decreases n - i,
    {
        let mut j: usize = i + 1;
        while j < n
            invariant
                n == ones@.len(),
                i < n,
                i + 1 <= j <= n,
                ones@ == ones_prefix(h, M as int),
                h.len() == M,
                forall|u: int| 0 <= u < n ==> (#[trigger] ones@[u]) < M,
                forall|x: int| 0 <= x < M ==> (#[trigger] ones_bitset@[x] == 1) == h[x],
                has_4cycle <= 1,
                has_4cycle == 1 ==> has_four_cycle(ones@, h),
                has_4cycle == 0 ==> forall|a: int, b: int, c: int|
                    0 <= a < i && a < b < n && 0 <= c < n ==> !#[trigger] four_cycle_at(ones@, h, a, b, c),
                has_4cycle == 0 ==> forall|b: int, c: int|
                    i < b < j && 0 <= c < n ==> !#[trigger] four_cycle_at(ones@, h, i as int, b, c),
            decreases n - j,
        {
            let mut k: usize = 0;
            while k < n
                invariant
                    n == ones@.len(),
                    i < j < n,
                    k <= n,
                    ones@ == ones_prefix(h, M as int),
                    h.len() == M,
                    forall|u: int| 0 <= u < n ==> (#[trigger] ones@[u]) < M,
                    forall|x: int| 0 <= x < M ==> (#[trigger] ones_bitset@[x] == 1) == h[x],
                    has_4cycle <= 1,
                    has_4cycle == 1 ==> has_four_cycle(ones@, h),
                    has_4cycle == 0 ==> forall|a: int, b: int, c: int|
                        0 <= a < i && a < b < n && 0 <= c < n ==> !#[trigger] four_cycle_at(ones@, h, a, b, c),
                    has_4cycle == 0 ==> forall|b: int, c: int|
                        i < b < j && 0 <= c < n ==> !#[trigger] four_cycle_at(ones@, h, i as int, b, c),
                    has_4cycle == 0 ==> forall|c: int|
                        0 <= c < k ==> !#[trigger] four_cycle_at(ones@, h, i as int, j as int, c),
                decreases n - k,
            {
                if k == i || k == j {
                    k = k + 1;
                    continue;
                }
                let p4 = (ones[i] + ones[j] + M - ones[k]) % M;
                let in_set = ones_bitset[p4] as u8;
                let cond1 = (p4 != ones[i]) as u8;
                let cond2 = (p4 != ones[j]) as u8;
                let cond3 = (p4 != ones[k]) as u8;
                let cond4 = (in_set == 1) as u8;
                let is_4cycle = cond1 & cond2 & cond3 & cond4;
                proof {
                    assert((cond1 & cond2 & cond3 & cond4) == (if cond1 == 1 && cond2 == 1 && cond3 == 1
                        && cond4 == 1 { 1u8 } else { 0u8 }) && (has_4cycle | (if cond1 == 1 && cond2 == 1 && cond3 == 1
                        && cond4 == 1 { 1u8 } else { 0u8 })) == (if has_4cycle == 1 || (cond1 == 1 && cond2 == 1 && cond3 == 1
                        && cond4 == 1) { 1u8 } else { 0u8 })) by (bit_vector)
                        requires
                            cond1 <= 1,
                            cond2 <= 1,
                            cond3 <= 1,
                            cond4 <= 1,
                            has_4cycle <= 1,
                    ;
                    assert(four_cycle_at(ones@, h, i as int, j as int, k as int) == (is_4cycle == 1));
                }
                has_4cycle = has_4cycle | is_4cycle;
                k = k + 1;
            }
            j = j + 1;
        }
        i = i + 1;
    }
    has_4cycle == 0
}

/// A sequence of length > `t` free entries has a `t`-th free entry.
pub proof fn lemma_kth_free_exists(s: Seq<bool>, t: int)
    requires
        0 <= t < count_true(s),
    ensures
        exists|k: int| 0 <= k < s.len() && s[k] && count_true(s.take(k)) == t,
    decreases s.len(),
{
    let p = s.drop_last();
    assert(s.take(s.len() - 1) == p);
    if t < count_true(p) {
        lemma_kth_free_exists(p, t);
        let k = choose|k: int| 0 <= k < p.len() && p[k] && count_true(p.take(k)) == t;
        assert(s.take(k) == p.take(k));
    } else {
        let k = s.len() - 1;
        assert(s[k]);
        assert(count_true(s.take(k)) == t);
    }
}

/// The free-entry count of prefixes does not decrease.
pub proof fn lemma_count_take_mono(s: Seq<bool>, i: int, j: int)
    requires
        0 <= i <= j <= s.len(),
    ensures
        count_true(s.take(i)) <= count_true(s.take(j)),
        i < j && s[i] ==> count_true(s.take(i)) < count_true(s.take(j)),
    decreases j - i,
{
    if i < j {
        lemma_count_take_mono(s, i, j - 1);
        assert(s.take(j).drop_last() == s.take(j - 1));
        if i == j - 1 {
            assert(s.take(j).last() == s[i]);
        }
    }
}

/// The `t`-th free entry is unique.
pub proof fn lemma_kth_free_unique(s: Seq<bool>, t: int, k: int)
    requires
        0 <= k < s.len(),
        s[k],
        count_true(s.take(k)) == t,
    ensures
        kth_free(s, t) == k,
{
    let c = kth_free(s, t);
    assert(0 <= c < s.len() && s[c] && count_true(s.take(c)) == t);
    if c < k {
        lemma_count_take_mono(s, c, k);
    } else if k < c {
        lemma_count_take_mono(s, k, c);
    }
}

/// Counting a prefix one entry further.
pub proof fn lemma_count_take_step(s: Seq<bool>, k: int)
    requires
        0 <= k < s.len(),
    ensures
        count_true(s.take(k + 1)) == count_true(s.take(k)) + (if s[k] { 1nat } else { 0nat }),
{
    assert(s.take(k + 1).drop_last() == s.take(k));
}

/// Clearing a set entry lowers the count by one.
pub proof fn lemma_count_clear(s: Seq<bool>, k: int)
    requires
        0 <= k < s.len(),
        s[k],
    ensures
        count_true(s.update(k, false)) + 1 == count_true(s),
{
    crate::bits::lemma_count_true_set(s.update(k, false), k);
    assert(s.update(k, false).update(k, true) == s);
}

/// Shape of a selection: `n` distinct chosen positions below `modulus`,
/// exactly the cleared entries of the free map.
pub proof fn lemma_selection_shape(bytes: Seq<u8>, seed: Seq<u8>, n: int, modulus: int)
    requires
        0 <= n <= modulus <= M,
    ensures
        selection(bytes, seed, n, modulus).0.len() == modulus,
        selection(bytes, seed, n, modulus).1.len() == n,
        count_true(selection(bytes, seed, n, modulus).0) == modulus - n,
        selection(bytes, seed, n, modulus).1.no_duplicates(),
        forall|t: int|
            0 <= t < n ==> (#[trigger] selection(bytes, seed, n, modulus).1[t]) < modulus,
        forall|k: int|
            0 <= k < modulus ==> (!selection(bytes, seed, n, modulus).0[k]
                <==> selection(bytes, seed, n, modulus).1.contains(k as usize)),
    decreases n,
{
    let sel = selection(bytes, seed, n, modulus);
    if n == 0 {
        let all = Seq::new(modulus as nat, |i: int| true);
        assert(count_true(all) == modulus) by {
            lemma_count_all_true(modulus);
        }
    } else {
        lemma_selection_shape(bytes, seed, n - 1, modulus);
        let prev = selection(bytes, seed, n - 1, modulus);
        let free = count_true(prev.0);
        let word = chosen_word(bytes, seed, n - 1, 65536int - 65536int % (free as int), 0);
        let t = word % (free as int);
        lemma_kth_free_exists(prev.0, t);
        let k = kth_free(prev.0, t);
        lemma_count_clear(prev.0, k);
        assert(!prev.1.contains(k as usize));
        assert forall|a: int, b: int|
            0 <= a < sel.1.len() && 0 <= b < sel.1.len() && a != b implies sel.1[a] != sel.1[b] by {
            if a == n - 1 {
                assert(prev.1[b] == sel.1[b]);
            } else if b == n - 1 {
                assert(prev.1[a] == sel.1[a]);
            }
        }
        assert forall|j: int| 0 <= j < modulus implies (!sel.0[j] <==> sel.1.contains(j as usize)) by {
            if j == k {
                assert(sel.1[n - 1] == j as usize);
            } else {
                if sel.1.contains(j as usize) {
                    let u = choose|u: int| 0 <= u < sel.1.len() && sel.1[u] == j as usize;
                    assert(u != n - 1);
                    assert(prev.1[u] == j as usize);
                }
                if prev.1.contains(j as usize) {
                    let u = choose|u: int| 0 <= u < prev.1.len() && prev.1[u] == j as usize;
                    assert(sel.1[u] == j as usize);
                }
            }
        }
    }
}

/// An all-true sequence of length `n` counts `n`.
pub proof fn lemma_count_all_true(n: int)
    requires
        0 <= n,
    ensures
        count_true(Seq::new(n as nat, |i: int| true)) == n,
    decreases n,
{
    if n > 0 {
        lemma_count_all_true(n - 1);
        assert(Seq::new(n as nat, |i: int| true).drop_last() == Seq::new(
            (n - 1) as nat,
            |i: int| true,
        ));
    }
}

} // verus!

//! Bit-Gray-Flip (BGF) syndrome decoder for the QC-MDPC code `[H0 | H1]`.
//!
//! Every iteration performs the same work: once the syndrome matches, all
//! updates are neutralised by a mask instead of leaving the loop.

use vstd::prelude::*;
use crate::bits::{
    bytes_to_bits, lemma_bit_and, lemma_bit_zero, lemma_byte_facts, lemma_byte_shift, lemma_split_word_index,
    lemma_word_facts, wbit, words_to_bits,
};
use crate::matrix::{bytes_to_words, Circulant, NUM_WORDS};
use crate::parameters::{
    BLACK_ONLY_ITERS, GRAY_COUNT_MIN, M, MAX_ITER, PUBKEY_BYTES, T_BLACK_FINAL, T_BLACK_INIT,
    T_GRAY_FINAL, T_GRAY_INIT,
};
use crate::polynomial::Polynomial;
use crate::ring::{
    add_mod, lemma_ring_mul_commutative, lemma_ring_mul_zero, ones_prefix, ring_add, ring_mul, ring_zero,
};

verus! {

/// The syndrome `H0 * e0 + H1 * e1` of an error split into two halves.
pub open spec fn syndrome(h0: Seq<bool>, h1: Seq<bool>, e0: Seq<bool>, e1: Seq<bool>) -> Seq<
    bool,
> {
    ring_add(ring_mul(h0, e0), ring_mul(h1, e1))
}

/// Black threshold of iteration `iter`: linear interpolation (rounded down)
/// from `T_BLACK_INIT` to `T_BLACK_FINAL`.
pub open spec fn black_threshold(iter: int) -> u8 {
    (T_BLACK_INIT - ((T_BLACK_INIT - T_BLACK_FINAL) * iter) / ((MAX_ITER - 1) as int)) as u8
}

/// Gray threshold of iteration `iter`.
pub open spec fn gray_threshold(iter: int) -> u8 {
    (T_GRAY_INIT - ((T_GRAY_INIT - T_GRAY_FINAL) * iter) / ((MAX_ITER - 1) as int)) as u8
}

/// Number of entries `p` of `ones` for which `diff[j + p mod M]` is set.
pub open spec fn hits(diff: Seq<bool>, ones: Seq<usize>, j: int) -> nat
    decreases ones.len(),
{
    if ones.len() == 0 {
        0
    } else {
        hits(diff, ones.drop_last(), j) + (if diff[add_mod(j, ones.last() as int)] {
            1nat
        } else {
            0nat
        })
    }
}

/// Suspect count of variable `j` of a half with first row `h`: the number of
/// unsatisfied checks it takes part in, as an 8-bit counter, forced to 0 when
/// the decoder has stopped working.
pub open spec fn suspect_count(diff: Seq<bool>, h: Seq<bool>, j: int, work: bool) -> u8 {
    if work {
        (hits(diff, ones_prefix(h, M as int), j) % 256) as u8
    } else {
        0
    }
}

/// Whether a bit with suspect count `s` and gray count `gc` is flipped, with
/// the gray-count minimum `gcm`: black flip at `s >= tb`, gray flip at
/// `tg <= s < tb` once `gc >= gcm` in a gray-enabled iteration.
pub open spec fn flip_decision_with(s: u8, gc: u16, tb: u8, tg: u8, gcm: u16, use_gray: bool, work: bool) -> bool {
    work && (s >= tb || (use_gray && gc >= gcm && s >= tg && s < tb))
}

/// The next gray count of a bit: incremented (modulo 2^16) while the bit is
/// flipped or gray in a gray-enabled iteration, reset to 0 otherwise.
pub open spec fn gray_next_with(s: u8, gc: u16, tb: u8, tg: u8, gcm: u16, use_gray: bool, work: bool) -> u16 {
    if work && (flip_decision_with(s, gc, tb, tg, gcm, use_gray, work) || (use_gray && s >= tg)) {
        ((gc + 1) % 65536) as u16
    } else {
        0
    }
}

/// The flip decision of the decoder (gray-count minimum `GRAY_COUNT_MIN`).
pub open spec fn flip_decision(s: u8, gc: u16, tb: u8, tg: u8, use_gray: bool, work: bool) -> bool {
    flip_decision_with(s, gc, tb, tg, GRAY_COUNT_MIN, use_gray, work)
}

/// The gray-count update of the decoder (gray-count minimum `GRAY_COUNT_MIN`).
pub open spec fn gray_next(s: u8, gc: u16, tb: u8, tg: u8, use_gray: bool, work: bool) -> u16 {
    gray_next_with(s, gc, tb, tg, GRAY_COUNT_MIN, use_gray, work)
}

/// Decoder state: the two error halves, the gray counts of all 2M bits and
/// whether the syndrome has matched.
pub type BgfState = (Seq<bool>, Seq<bool>, Seq<u16>, bool);

/// The state before the first iteration.
pub open spec fn bgf_init() -> BgfState {
    (ring_zero(), ring_zero(), Seq::new((2 * M) as nat, |i: int| 0u16), false)
}

/// One decoder iteration.
pub open spec fn bgf_step(
    st: BgfState,
    target: Seq<bool>,
    h0: Seq<bool>,
    h1: Seq<bool>,
    iter: int,
) -> BgfState {
    let s = syndrome(h0, h1, st.0, st.1);
    let conv = st.3 || s == target;
    let work = !conv;
    let diff = if work {
        ring_add(s, target)
    } else {
        ring_zero()
    };
    let tb = black_threshold(iter);
    let tg = gray_threshold(iter);
    let ug = iter >= BLACK_ONLY_ITERS;
    let e0 = Seq::new(
        M as nat,
        |j: int| st.0[j] != flip_decision(suspect_count(diff, h0, j, work), st.2[j], tb, tg, ug, work),
    );
    let e1 = Seq::new(
        M as nat,
        |j: int|
            st.1[j] != flip_decision(suspect_count(diff, h1, j, work), st.2[M + j], tb, tg, ug, work),
    );
    let gc = Seq::new(
        (2 * M) as nat,
        |i: int|
            if i < M {
                gray_next(suspect_count(diff, h0, i, work), st.2[i], tb, tg, ug, work)
            } else {
                gray_next(suspect_count(diff, h1, i - M, work), st.2[i], tb, tg, ug, work)
            },
    );
    (e0, e1, gc, conv)
}

/// The state after `n` iterations.
pub open spec fn bgf_run(target: Seq<bool>, h0: Seq<bool>, h1: Seq<bool>, n: int) -> BgfState
    decreases n,
{
    if n <= 0 {
        bgf_init()
    } else {
        bgf_step(bgf_run(target, h0, h1, n - 1), target, h0, h1, n - 1)
    }
}

/// The zero syndrome decodes to the zero error, for every key: the decoder
/// starts from zero, finds the syndrome already matched and changes nothing.
pub proof fn lemma_decode_zero_syndrome(h0: Seq<bool>, h1: Seq<bool>, n: int)
    requires
        n >= 0,
    ensures
        bgf_run(ring_zero(), h0, h1, n).0 == ring_zero(),
        bgf_run(ring_zero(), h0, h1, n).1 == ring_zero(),
        syndrome(h0, h1, ring_zero(), ring_zero()) == ring_zero(),
    decreases n,
{
    lemma_ring_mul_commutative(h0, ring_zero());
    lemma_ring_mul_commutative(h1, ring_zero());
    lemma_ring_mul_zero(h0);
    lemma_ring_mul_zero(h1);
    assert(ring_add(ring_zero(), ring_zero()) =~= ring_zero());
    if n > 0 {
        lemma_decode_zero_syndrome(h0, h1, n - 1);
        let st = bgf_run(ring_zero(), h0, h1, n - 1);
        let nx = bgf_run(ring_zero(), h0, h1, n);
        assert(nx.0 =~= ring_zero());
        assert(nx.1 =~= ring_zero());
    }
}

/// Once the syndrome has matched, the error halves satisfy it from then on.
pub proof fn lemma_bgf_converged(target: Seq<bool>, h0: Seq<bool>, h1: Seq<bool>, n: int)
    requires
        n >= 0,
    ensures
        bgf_run(target, h0, h1, n).3 ==> syndrome(
            h0,
            h1,
            bgf_run(target, h0, h1, n).0,
            bgf_run(target, h0, h1, n).1,
        ) == target,
        bgf_run(target, h0, h1, n).0.len() == M,
        bgf_run(target, h0, h1, n).1.len() == M,
        bgf_run(target, h0, h1, n).2.len() == 2 * M,
    decreases n,
{
    if n > 0 {
        lemma_bgf_converged(target, h0, h1, n - 1);
        let st = bgf_run(target, h0, h1, n - 1);
        let nx = bgf_run(target, h0, h1, n);
        if nx.3 {
            assert(nx.0 =~= st.0);
            assert(nx.1 =~= st.1);
        }
    }
}

/// Decodes `target` against `[H0 | H1]`: runs `MAX_ITER` BGF iterations and
/// returns the two error halves together with whether their syndrome equals
/// `target`.
pub fn decode(target: &Polynomial, h0: &Circulant, h1: &Circulant) -> (r: (
    Polynomial,
    Polynomial,
    bool,
))
    ensures
        r.0@ == bgf_run(target@, h0@, h1@, MAX_ITER as int).0,
        r.1@ == bgf_run(target@, h0@, h1@, MAX_ITER as int).1,
        r.2 == (syndrome(h0@, h1@, r.0@, r.1@) == target@),
{
    let mut e0 = Polynomial::zero();
    let mut e1 = Polynomial::zero();
    let mut gray_count: Vec<u16> = vec![0u16; 2 * M];
    let mut suspect: Vec<u8> = vec![0u8; 2 * M];
    let ones_h0 = h0.ones();
    let ones_h1 = h1.ones();
    let mut converged_mask: u8 = 0x00;
    let ghost t = target@;
    let ghost hh0 = h0@;
    let ghost hh1 = h1@;
    proof {
        target.lemma_view();
        crate::ring::lemma_ones_prefix_shape(hh0, M as int);
        crate::ring::lemma_ones_prefix_shape(hh1, M as int);
        assert(e0@ =~= bgf_init().0);
        assert(e1@ =~= bgf_init().1);
        assert(gray_count@ =~= bgf_init().2);
    }
    let mut iter: usize = 0;
    while iter < MAX_ITER
        invariant
            iter <= MAX_ITER,
            t == target@,
            hh0 == h0@,
            hh1 == h1@,
            t.len() == M,
            hh0.len() == M,
            hh1.len() == M,
            ones_h0@ == ones_prefix(hh0, M as int),
            ones_h1@ == ones_prefix(hh1, M as int),
            forall|u: int| 0 <= u < ones_h0@.len() ==> #[trigger] ones_h0@[u] < M,
            forall|u: int| 0 <= u < ones_h1@.len() ==> #[trigger] ones_h1@[u] < M,
            suspect@.len() == 2 * M,
            gray_count@.len() == 2 * M,
            converged_mask == 0 || converged_mask == 0xFF,
            e0@ == bgf_run(t, hh0, hh1, iter as int).0,
            e1@ == bgf_run(t, hh0, hh1, iter as int).1,
            gray_count@ == bgf_run(t, hh0, hh1, iter as int).2,
            (converged_mask == 0xFF) == bgf_run(t, hh0, hh1, iter as int).3,
        decreases MAX_ITER - iter,
    {
        let ghost st = bgf_run(t, hh0, hh1, iter as int);
        let denom = if MAX_ITER > 1 {
            (MAX_ITER - 1) as u64
        } else {
            1
        };
        proof {
            let it = iter as int;
            assert((20 * it) / 14 <= 20 && (18 * it) / 14 <= 18) by (nonlinear_arith)
                requires
                    0 <= it <= 14,
            ;
        }
        let t_black = (T_BLACK_INIT as u64 - ((T_BLACK_INIT as u64 - T_BLACK_FINAL as u64)
            * iter as u64) / denom) as u8;
        let t_gray = (T_GRAY_INIT as u64 - ((T_GRAY_INIT as u64 - T_GRAY_FINAL as u64)
            * iter as u64) / denom) as u8;
        proof {
            assert(t_black == black_threshold(iter as int));
            assert(t_gray == gray_threshold(iter as int));
        }

        let s_curr = h0.compute_syndrome_ct(&e0).add(&h1.compute_syndrome_ct(&e1));
        let match_flag: u8 = s_curr.ct_bytes_equal(target) as u8;
        converged_mask = converged_mask | 0u8.wrapping_sub(match_flag);
        let work_mask: u8 = !converged_mask;
        proof {
            assert(s_curr@ =~= syndrome(hh0, hh1, e0@, e1@));
            lemma_byte_facts(0u8, 0u8);
        }
        let ghost work = work_mask == 0xFF;

        let diff = s_curr.xor(target);
        let mut diff_bytes = *diff.as_bytes();
        let mut i: usize = 0;
        while i < PUBKEY_BYTES
            invariant
                i <= PUBKEY_BYTES,
                work_mask == 0 || work_mask == 0xFF,
                diff.bytes().len() == PUBKEY_BYTES,
                forall|k: int|
                    0 <= k < i ==> #[trigger] diff_bytes@[k] == diff.bytes()[k] & work_mask,
                forall|k: int| i <= k < PUBKEY_BYTES ==> #[trigger] diff_bytes@[k] == diff.bytes()[k],
            decreases PUBKEY_BYTES - i,
        {
            diff_bytes[i] = diff_bytes[i] & work_mask;
            i = i + 1;
        }
        let diff_words = bytes_to_words(&diff_bytes);
        proof {
            diff.lemma_view();
            let dspec = if work {
                ring_add(syndrome(hh0, hh1, e0@, e1@), t)
            } else {
                ring_zero()
            };
            assert forall|k: int| 0 <= k < M implies #[trigger] words_to_bits(diff_words@)[k]
                == dspec[k] by {
                let b = (k % 8) as u8;
                lemma_bit_and(diff.bytes()[k / 8], work_mask, b);
                assert(words_to_bits(diff_words@)[k] == bytes_to_bits(diff_bytes@)[k]);
                assert(bytes_to_bits(diff_bytes@)[k] == crate::bits::bit(diff_bytes@[k / 8], b));
                assert(diff_bytes@[k / 8] == diff.bytes()[k / 8] & work_mask);
                assert(diff@[k] == crate::bits::bit(diff.bytes()[k / 8], b));
                assert(diff@[k] == (s_curr@[k] != t[k]));
                lemma_byte_shift(0xFFu8, b);
                lemma_bit_zero(b);
            }
            assert(words_to_bits(diff_words@) =~= dspec);
        }

        suspect_counts(&diff_words, ones_h0, work_mask, &mut suspect, 0);
        suspect_counts(&diff_words, ones_h1, work_mask, &mut suspect, M);

        let use_gray = iter >= BLACK_ONLY_ITERS;
        let ghost g_before = gray_count@;
        apply_flips(&mut e0, &mut gray_count, &suspect, 0, t_black, t_gray, use_gray, work_mask);
        let ghost g_mid = gray_count@;
        apply_flips(&mut e1, &mut gray_count, &suspect, M, t_black, t_gray, use_gray, work_mask);
        proof {
            let nx = bgf_run(t, hh0, hh1, iter + 1);
            let dspec = words_to_bits(diff_words@);
            assert(nx == bgf_step(st, t, hh0, hh1, iter as int));
            assert forall|j: int| 0 <= j < M implies suspect@[j] == suspect_count(dspec, hh0, j, work)
                && suspect@[M + j] == suspect_count(dspec, hh1, j, work) by {
                assert(suspect@[0 + j] == suspect@[j]);
            }
            assert(e0@ =~= nx.0);
            assert(e1@ =~= nx.1);
            assert forall|k: int| 0 <= k < 2 * M implies #[trigger] gray_count@[k] == nx.2[k] by {
                if k < M {
                    assert(g_mid[0 + k] == gray_count@[k]);
                } else {
                    assert(gray_count@[M + (k - M)] == gray_count@[k]);
                    assert(g_mid[M + (k - M)] == g_before[k]);
                }
            }
            assert(gray_count@ =~= nx.2);
        }
        iter = iter + 1;
    }

    let s_final = h0.compute_syndrome_ct(&e0).add(&h1.compute_syndrome_ct(&e1));
    let final_ok: u8 = s_final.ct_bytes_equal(target) as u8;
    let any_ok = converged_mask | 0u8.wrapping_sub(final_ok);
    proof {
        assert(s_final@ =~= syndrome(hh0, hh1, e0@, e1@));
        lemma_bgf_converged(t, hh0, hh1, MAX_ITER as int);
        lemma_byte_facts(0u8, 0u8);
    }

    let mut k: usize = 0;
    while k < gray_count.len()
        invariant
            k <= gray_count@.len(),
        decreases gray_count@.len() - k,
    {
        gray_count.set(k, 0);
        k = k + 1;
    }
    let mut k: usize = 0;
    while k < suspect.len()
        invariant
            k <= suspect@.len(),
        decreases suspect@.len() - k,
    {
        suspect.set(k, 0);
        k = k + 1;
    }

    (e0, e1, any_ok != 0)
}

/// `((x - y) >> 63) ^ 1` is the flag `x >= y` for small operands.
proof fn lemma_ge_flag(x: u64, y: u64)
    requires
        x < 0x1_0000_0000,
        y < 0x1_0000_0000,
    ensures
        (x.wrapping_sub(y) >> 63) ^ 1 == (if x >= y { 1u64 } else { 0u64 }),
        x.wrapping_sub(y) >> 63 == (if x < y { 1u64 } else { 0u64 }),
{
    let d = x.wrapping_sub(y);
    if x >= y {
        assert(d < 0x1_0000_0000);
        lemma_word_facts(0u64, d);
    } else {
        assert(d >= 0xFFFF_FFFF_0000_0000u64);
        lemma_word_facts(0u64, d);
    }
}

/// Combining the branch-free flags of one flip decision.
proof fn lemma_flip_masks(a: u64, b: u64, c: u64, d: u64, g: u64, w: u64)
    requires
        a <= 1,
        b <= 1,
        c <= 1,
        d <= 1,
        g == 0 || g == 0xFFFF_FFFF_FFFF_FFFFu64,
        w == 0 || w == 0xFF,
    ensures
        ({
            let f = (a | (g & b & c & d)) & w;
            &&& f == (if w == 0xFF && (a == 1 || (g != 0 && b == 1 && c == 1 && d == 1)) {
                1u64
            } else {
                0u64
            })
            &&& ((f | (c & g)) & w) == (if w == 0xFF && (f == 1 || (g != 0 && c == 1)) {
                1u64
            } else {
                0u64
            })
            &&& f & 1 == f
        }),
{
    assert(({
        let f = (a | (g & b & c & d)) & w;
        &&& f == (if w == 0xFF && (a == 1 || (g != 0 && b == 1 && c == 1 && d == 1)) {
            1u64
        } else {
            0u64
        })
        &&& ((f | (c & g)) & w) == (if w == 0xFF && (f == 1 || (g != 0 && c == 1)) {
            1u64
        } else {
            0u64
        })
        &&& f & 1 == f
    })) by (bit_vector)
        requires
            a <= 1,
            b <= 1,
            c <= 1,
            d <= 1,
            g == 0 || g == 0xFFFF_FFFF_FFFF_FFFFu64,
            w == 0 || w == 0xFF,
    ;
}

/// Branch-free bit-flipping rule for one bit: flips bit `bit_idx` of `e` and
/// updates gray counter `gray_idx` as `flip_decision_with` and
/// `gray_next_with` say for the gray-count minimum `gray_count_min`.
fn flip_bgf(
    e: &mut Polynomial,
    gray_count: &mut Vec<u16>,
    bit_idx: usize,
    gray_idx: usize,
    suspect: u8,
    t_black: u8,
    t_gray: u8,
    gray_count_min: u16,
    use_gray: bool,
    work_mask: u8,
)
    requires
        bit_idx < M,
        gray_idx < old(gray_count)@.len(),
        work_mask == 0 || work_mask == 0xFF,
    ensures
        final(e)@ == old(e)@.update(
            bit_idx as int,
            old(e)@[bit_idx as int] != flip_decision_with(
                suspect,
                old(gray_count)@[gray_idx as int],
                t_black,
                t_gray,
                gray_count_min,
                use_gray,
                work_mask == 0xFF,
            ),
        ),
        final(gray_count)@ == old(gray_count)@.update(
            gray_idx as int,
            gray_next_with(
                suspect,
                old(gray_count)@[gray_idx as int],
                t_black,
                t_gray,
                gray_count_min,
                use_gray,
                work_mask == 0xFF,
            ),
        ),
{
    let sus = suspect as u64;
    let gc = gray_count[gray_idx] as u64;
    let tb = t_black as u64;
    let tg = t_gray as u64;
    let gcm = gray_count_min as u64;

    let ge_tb = ((sus.wrapping_sub(tb)) >> 63) ^ 1u64;
    let ge_tg = ((sus.wrapping_sub(tg)) >> 63) ^ 1u64;
    let lt_tb = (sus.wrapping_sub(tb)) >> 63;
    let gc_ok = ((gc.wrapping_sub(gcm)) >> 63) ^ 1u64;

    let black_flip = ge_tb;
    let use_gray_mask = if use_gray {
        !0u64
    } else {
        0u64
    };
    let gray_flip = use_gray_mask & gc_ok & ge_tg & lt_tb;
    let flip_mask = (black_flip | gray_flip) & (work_mask as u64);
    proof {
        lemma_ge_flag(sus, tb);
        lemma_ge_flag(sus, tg);
        lemma_ge_flag(gc, gcm);
        lemma_word_facts(0u64, 0u64);
        assert(use_gray_mask & gc_ok & ge_tg & lt_tb == use_gray_mask & gc_ok & ge_tg & lt_tb);
        lemma_flip_masks(ge_tb, gc_ok, ge_tg, lt_tb, use_gray_mask, work_mask as u64);
        assert(use_gray_mask & gc_ok & ge_tg & lt_tb == ((use_gray_mask & gc_ok) & ge_tg) & lt_tb);
        assert((use_gray_mask & gc_ok & ge_tg & lt_tb) == (use_gray_mask & gc_ok & ge_tg & lt_tb));
    }
    e.flip_bit_ct(bit_idx, (flip_mask & 1) as u8);
    let in_gray_or_flip = (flip_mask | (ge_tg & use_gray_mask)) & (work_mask as u64);
    proof {
        let v = (gc + 1) as u64;
        assert(v * 1 == v && v * 0 == 0);
        assert((v as u16) == ((v % 65536) as u16)) by (bit_vector)
            requires
                v <= 65536,
        ;
    }
    gray_count.set(gray_idx, ((gc + 1) * in_gray_or_flip) as u16);
}

/// Bit `b` of a word, extracted as the low bit of a byte.
proof fn lemma_word_bit_byte(w: u64, b: u64)
    requires
        b < 64,
    ensures
        ((w >> b) as u8) & 1u8 == (if wbit(w, b) { 1u8 } else { 0u8 }),
{
    assert(((w >> b) as u8) & 1u8 == (if (w >> b) & 1u64 == 1u64 { 1u8 } else { 0u8 }))
        by (bit_vector)
        requires
            b < 64,
    ;
}

/// `target_bit >> 6` and `target_bit & 63` are word index and bit offset.
proof fn lemma_split_index(x: usize)
    ensures
        x >> 6 == x / 64,
        x & 63 == x % 64,
{
    lemma_split_word_index(x);
}

/// Suspect counts of one half: for every variable `j`, the number of ones `p`
/// of the half's first row with bit `j + p mod M` of `diff_words` set, as an
/// 8-bit counter, masked by `work_mask`; written at `offset + j`.
fn suspect_counts(
    diff_words: &[u64; NUM_WORDS],
    ones: &[usize],
    work_mask: u8,
    suspect: &mut Vec<u8>,
    offset: usize,
)
    requires
        old(suspect)@.len() == 2 * M,
        offset == 0 || offset == M,
        forall|t: int| 0 <= t < ones@.len() ==> #[trigger] ones@[t] < M,
        work_mask == 0 || work_mask == 0xFF,
    ensures
        final(suspect)@.len() == 2 * M,
        forall|j: int|
            0 <= j < M ==> #[trigger] final(suspect)@[offset + j] == (if work_mask == 0xFF {
                (hits(words_to_bits(diff_words@), ones@, j) % 256) as u8
            } else {
                0u8
            }),
        forall|i: int|
            0 <= i < 2 * M && !(offset <= i < offset + M) ==> #[trigger] final(suspect)@[i]
                == old(suspect)@[i],
{
    let ghost diff = words_to_bits(diff_words@);
    let mut j: usize = 0;
    while j < M
        invariant
            j <= M,
            suspect@.len() == 2 * M,
            offset == 0 || offset == M,
            forall|t: int| 0 <= t < ones@.len() ==> #[trigger] ones@[t] < M,
            work_mask == 0 || work_mask == 0xFF,
            diff == words_to_bits(diff_words@),
            forall|jj: int|
                0 <= jj < j ==> #[trigger] suspect@[offset + jj] == (if work_mask == 0xFF {
                    (hits(diff, ones@, jj) % 256) as u8
                } else {
                    0u8
                }),
            forall|i: int|
                0 <= i < 2 * M && !(offset <= i < offset + j) ==> #[trigger] suspect@[i]
                    == old(suspect)@[i],
        decreases M - j,
    {
        let mut count = 0u8;
        let mut t: usize = 0;
        while t < ones.len()
            invariant
                j < M,
                t <= ones@.len(),
                forall|u: int| 0 <= u < ones@.len() ==> #[trigger] ones@[u] < M,
                diff == words_to_bits(diff_words@),
                count == (hits(diff, ones@.take(t as int), j as int) % 256) as u8,
            decreases ones@.len() - t,
        {
            let p = ones[t];
            let target_bit = (j + p) % M;
            let target_word_idx = target_bit >> 6;
            let target_bit_pos = (target_bit & 63) as u64;
            proof {
                lemma_split_index(target_bit);
            }
            let word_val = diff_words[target_word_idx];
            let inc = ((word_val >> target_bit_pos) as u8) & 1;
            proof {
                lemma_word_bit_byte(word_val, target_bit_pos);
                assert(ones@.take(t + 1).drop_last() == ones@.take(t as int));
                assert(ones@.take(t + 1).last() == p);
                assert(diff[target_bit as int] == wbit(
                    diff_words@[target_bit as int / 64],
                    (target_bit as int % 64) as u64,
                ));
                let hb = hits(diff, ones@.take(t as int), j as int);
                assert((((hb % 256) as u8) + inc) % 256 == (hb + inc) % 256);
            }
            count = count.wrapping_add(inc);
            t = t + 1;
        }
        proof {
            assert(ones@.take(ones@.len() as int) == ones@);
            lemma_byte_facts(count, 0u8);
        }
        suspect.set(offset + j, count & work_mask);
        j = j + 1;
    }
}

/// Applies `flip_bgf` to every bit of one error half, with suspect and gray
/// entries taken at `offset + j`.
fn apply_flips(
    e: &mut Polynomial,
    gray_count: &mut Vec<u16>,
    suspect: &Vec<u8>,
    offset: usize,
    t_black: u8,
    t_gray: u8,
    use_gray: bool,
    work_mask: u8,
)
    requires
        old(gray_count)@.len() == 2 * M,
        suspect@.len() == 2 * M,
        offset == 0 || offset == M,
        work_mask == 0 || work_mask == 0xFF,
    ensures
        final(gray_count)@.len() == 2 * M,
        final(e)@ == Seq::new(
            M as nat,
            |j: int|
                old(e)@[j] != flip_decision(
                    suspect@[offset + j],
                    old(gray_count)@[offset + j],
                    t_black,
                    t_gray,
                    use_gray,
                    work_mask == 0xFF,
                ),
        ),
        forall|j: int|
            0 <= j < M ==> #[trigger] final(gray_count)@[offset + j] == gray_next(
                suspect@[offset + j],
                old(gray_count)@[offset + j],
                t_black,
                t_gray,
                use_gray,
                work_mask == 0xFF,
            ),
        forall|i: int|
            0 <= i < 2 * M && !(offset <= i < offset + M) ==> #[trigger] final(gray_count)@[i]
                == old(gray_count)@[i],
{
    proof {
        e.lemma_view();
    }
    let ghost e0 = e@;
    let ghost g0 = gray_count@;
    let mut j: usize = 0;
    while j < M
        invariant
            j <= M,
            gray_count@.len() == 2 * M,
            suspect@.len() == 2 * M,
            offset == 0 || offset == M,
            work_mask == 0 || work_mask == 0xFF,
            e@.len() == M,
            e0.len() == M,
            g0.len() == 2 * M,
            forall|jj: int|
                0 <= jj < M ==> #[trigger] e@[jj] == if jj < j {
                    e0[jj] != flip_decision(
                        suspect@[offset + jj],
                        g0[offset + jj],
                        t_black,
                        t_gray,
                        use_gray,
                        work_mask == 0xFF,
                    )
                } else {
                    e0[jj]
                },
            forall|jj: int|
                0 <= jj < j ==> #[trigger] gray_count@[offset + jj] == gray_next(
                    suspect@[offset + jj],
                    g0[offset + jj],
                    t_black,
                    t_gray,
                    use_gray,
                    work_mask == 0xFF,
                ),
            forall|i: int|
                0 <= i < 2 * M && !(offset <= i < offset + j) ==> #[trigger] gray_count@[i]
                    == g0[i],
        decreases M - j,
    {
        proof {
            e.lemma_view();
        }
        flip_bgf(
            e,
            gray_count,
            j,
            offset + j,
            suspect[offset + j],
            t_black,
            t_gray,
            GRAY_COUNT_MIN,
            use_gray,
            work_mask,
        );
        j = j + 1;
    }
    proof {
        assert(e@ =~= Seq::new(
            M as nat,
            |jj: int|
                e0[jj] != flip_decision(
                    suspect@[offset + jj],
                    g0[offset + jj],
                    t_black,
                    t_gray,
                    use_gray,
                    work_mask == 0xFF,
                ),
        ));
    }
}

} // verus!

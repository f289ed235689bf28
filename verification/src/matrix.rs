//! Circulant blocks of the parity-check matrix and their syndromes, computed
//! on 64-bit words.

use vstd::prelude::*;
use crate::bits::{
    bit, bytes_to_bits, count_true, lemma_bit_value, lemma_byte_ext, lemma_wbit_and, lemma_wbit_const,
    lemma_split_word_index, lemma_wbit_or, lemma_wbit_xor, lemma_word_byte, lemma_word_facts,
    lemma_word_funnel, lemma_word_lane, wbit,
    words_to_bits,
};
use crate::parameters::{M, PUBKEY_BYTES};
use crate::polynomial::Polynomial;
use crate::primitives::{black_box_u64, zeroize_positions, zeroize_words};
use crate::ring::{
    conv_prefix, lemma_ring_mul_commutative, ones_prefix, ring_mul, sub_mod,
};
use vstd::arithmetic::div_mod::{
    lemma_fundamental_div_mod_converse_mod, lemma_mod_multiples_vanish, lemma_mod_self_0,
    lemma_small_mod,
};

verus! {

/// Number of 64-bit words of a packed ring element.
pub const NUM_WORDS: usize = (M + 63) / 64;

/// The word form of a secret block, wiped when dropped.
#[derive(Debug)]
struct BlockWords([u64; NUM_WORDS]);

impl Drop for BlockWords {
    fn drop(&mut self)
        opens_invariants none
        no_unwind
    {
        zeroize_words(&mut self.0);
    }
}

/// The positions of the ones of a secret block, wiped when dropped.
#[derive(Debug)]
struct BlockOnes(Vec<usize>);

impl Drop for BlockOnes {
    fn drop(&mut self)
        opens_invariants none
        no_unwind
    {
        zeroize_positions(&mut self.0);
    }
}

/// A circulant block `H_i`, stored with its word form and the positions of
/// its ones; all three are wiped when the block is dropped.
#[derive(Debug)]
pub struct Circulant {
    poly: Polynomial,
    h_words: BlockWords,
    row_weight: usize,
    ones: BlockOnes,
}

impl View for Circulant {
    type V = Seq<bool>;

    /// The first row of the block.
    closed spec fn view(&self) -> Seq<bool> {
        self.poly@
    }
}

/// Word `j` of the rotation by `64 * ws + bs` of the word string `h`.
pub open spec fn word_rot(h: Seq<u64>, j: int, ws: int, bs: u64) -> u64 {
    let n = NUM_WORDS as int;
    let v0 = h[(j + n - ws) % n];
    let v1 = h[(j + n - ws - 1) % n];
    if bs == 0 {
        v0
    } else {
        (v0 << bs) | (v1 >> ((64 - bs) as u64))
    }
}

impl Circulant {
    #[verifier::type_invariant]
    spec fn well_formed(&self) -> bool {
        &&& self.poly@.len() == M
        &&& words_to_bits(self.h_words.0@) == self.poly@
        &&& self.ones.0@ == ones_prefix(self.poly@, M as int)
        &&& self.row_weight == count_true(self.poly@)
    }

    /// Builds the block whose first row is `poly`.
    pub fn new(poly: Polynomial) -> (r: Self)
        ensures
            r@ == poly@,
    {
        let w = poly.weight();
        let ones = Self::get_set_bits(&poly);
        let h_words = bytes_to_words(poly.as_bytes());
        proof {
            poly.lemma_view();
        }
        Circulant { poly, h_words: BlockWords(h_words), row_weight: w, ones: BlockOnes(ones) }
    }

    /// The first row.
    pub fn polynomial(&self) -> (r: &Polynomial)
        ensures
            r@ == self@,
    {
        &self.poly
    }

    /// Number of ones in the first row.
    pub fn row_weight(&self) -> (r: usize)
        ensures
            r == count_true(self@),
    {
        proof {
            use_type_invariant(self);
        }
        self.row_weight
    }

    /// Positions of the ones of the first row, in increasing order.
    pub fn ones(&self) -> (r: &[usize])
        ensures
            r@ == ones_prefix(self@, M as int),
            self@.len() == M,
    {
        proof {
            use_type_invariant(self);
        }
        self.ones.0.as_slice()
    }

    /// Positions of the ones of a polynomial, in increasing order.
    fn get_set_bits(poly: &Polynomial) -> (r: Vec<usize>)
        ensures
            r@ == ones_prefix(poly@, M as int),
    {
        let mut positions: Vec<usize> = Vec::new();
        let mut byte_idx: usize = 0;
        proof {
            poly.lemma_view();
        }
        while byte_idx < PUBKEY_BYTES
            invariant
                byte_idx <= PUBKEY_BYTES,
                poly@ == bytes_to_bits(poly.bytes()),
                poly.bytes().len() == PUBKEY_BYTES,
                positions@ == ones_prefix(poly@, 8 * byte_idx as int),
            decreases PUBKEY_BYTES - byte_idx,
        {
            let byte = poly.as_bytes()[byte_idx];
            if byte == 0 {
                proof {
                    assert forall|i: int| 8 * byte_idx <= i < 8 * byte_idx + 8 implies !poly@[i] by {
                        assert(i / 8 == byte_idx as int);
                        crate::bits::lemma_bit_zero((i % 8) as u8);
                    }
                    crate::ring::lemma_ones_prefix_skip(
                        poly@,
                        8 * byte_idx as int,
                        8 * byte_idx + 8,
                    );
                }
                byte_idx = byte_idx + 1;
                continue;
            }
            let mut b: usize = 0;
            while b < 8
                invariant
                    byte_idx < PUBKEY_BYTES,
                    b <= 8,
                    poly@ == bytes_to_bits(poly.bytes()),
                    poly.bytes().len() == PUBKEY_BYTES,
                    byte == poly.bytes()[byte_idx as int],
                    positions@ == ones_prefix(poly@, 8 * byte_idx + b),
                ensures
                    positions@ == ones_prefix(poly@, 8 * byte_idx + 8),
                decreases 8 - b,
            {
                let p = byte_idx * 8 + b;
                if p >= M {
                    break;
                }
                proof {
                    lemma_bit_value(byte, b as u8);
                    assert(p / 8 == byte_idx as int && p % 8 == b as int);
                }
                if (byte >> (b as u8)) & 1 == 1 {
                    positions.push(p);
                }
                b = b + 1;
            }
            byte_idx = byte_idx + 1;
        }
        positions
    }

    /// The syndrome `h * vec`, visiting every coefficient of `vec` and
    /// applying each rotation through a mask, so the work does not depend on
    /// the bits of `vec` or of the block.
    pub fn compute_syndrome_ct(&self, vec: &Polynomial) -> (r: Polynomial)
        ensures
            r@ == ring_mul(self@, vec@),
    {
        proof {
            use_type_invariant(self);
            vec.lemma_view();
        }
        let num_words = NUM_WORDS;
        let h_words = self.h_words.0;
        let mut result_words = [0u64; NUM_WORDS];
        let bytes = vec.as_bytes();
        let ghost h = self@;
        let ghost v = vec@;
        proof {
            lemma_zero_words(result_words@);
        }
        let mut byte_idx: usize = 0;
        while byte_idx < PUBKEY_BYTES
            invariant
                byte_idx <= PUBKEY_BYTES,
                num_words == NUM_WORDS,
                h == self@,
                v == vec@,
                words_to_bits(h_words@) == h,
                bytes@ == vec.bytes(),
                v == bytes_to_bits(bytes@),
                words_to_bits(result_words@) == Seq::new(
                    M as nat,
                    |k: int| conv_prefix(v, h, k, 8 * byte_idx as int),
                ),
            decreases PUBKEY_BYTES - byte_idx,
        {
            let byte = bytes[byte_idx];
            let mut bit: usize = 0;
            while bit < 8
                invariant
                    byte_idx < PUBKEY_BYTES,
                    bit <= 8,
                    num_words == NUM_WORDS,
                    words_to_bits(h_words@) == h,
                    v == bytes_to_bits(bytes@),
                    byte == bytes@[byte_idx as int],
                    words_to_bits(result_words@) == Seq::new(
                        M as nat,
                        |k: int| conv_prefix(v, h, k, 8 * byte_idx + bit),
                    ),
                decreases 8 - bit,
            {
                let pos = byte_idx * 8 + bit;
                let bit_val = ((byte >> (bit as u8)) & 1) as u64;
                let in_range = 0u64.wrapping_sub((pos < M) as u64);
                let do_xor = in_range & 0u64.wrapping_sub(bit_val);
                let word_shift = pos >> 6;
                let bit_shift = pos & 63;
                proof {
                    lemma_bit_value(byte, bit as u8);
                    assert(pos / 8 == byte_idx as int && pos % 8 == bit as int);
                    lemma_split_pos(pos);
                    lemma_shift_controls(bit_shift as u64);
                    lemma_all_or_nothing(bit_val);
                }
                let shift_mask = 0u64.wrapping_sub((bit_shift as u64).wrapping_sub(1) >> 63);
                let shift_right = (64 - bit_shift) & 63;
                proof {
                    lemma_right_shift_amount(bit_shift);
                }
                let mask = black_box_u64(do_xor);
                let ghost before = result_words@;
                xor_rotated_into(&mut result_words, &h_words, word_shift, bit_shift, shift_mask, shift_right, mask);
                proof {
                    lemma_rotation_step(
                        before,
                        result_words@,
                        h_words@,
                        word_shift as int,
                        bit_shift as u64,
                        do_xor,
                    );
                    assert(words_to_bits(result_words@) =~= Seq::new(
                        M as nat,
                        |k: int| conv_prefix(v, h, k, 8 * byte_idx + bit + 1),
                    ));
                }
                bit = bit + 1;
            }
            byte_idx = byte_idx + 1;
        }
        let out = words_to_bytes(&result_words);
        let r = Polynomial::from_bytes(&out);
        proof {
            assert(r@ =~= ring_mul(vec@, self@));
            lemma_ring_mul_commutative(vec@, self@);
        }
        r
    }

    /// The syndrome `h * vec`, skipping the zero coefficients of `vec`.
    /// Its running time depends on `vec`: use it on public data only.
    pub fn compute_syndrome(&self, vec: &Polynomial) -> (r: Polynomial)
        ensures
            r@ == ring_mul(self@, vec@),
    {
        proof {
            use_type_invariant(self);
            vec.lemma_view();
        }
        let num_words = NUM_WORDS;
        let h_words = self.h_words.0;
        let mut result_words = [0u64; NUM_WORDS];
        let ghost h = self@;
        let ghost v = vec@;
        proof {
            lemma_zero_words(result_words@);
        }
        let mut byte_idx: usize = 0;
        while byte_idx < PUBKEY_BYTES
            invariant
                byte_idx <= PUBKEY_BYTES,
                num_words == NUM_WORDS,
                h == self@,
                v == vec@,
                words_to_bits(h_words@) == h,
                v == bytes_to_bits(vec.bytes()),
                vec.bytes().len() == PUBKEY_BYTES,
                words_to_bits(result_words@) == Seq::new(
                    M as nat,
                    |k: int| conv_prefix(v, h, k, 8 * byte_idx as int),
                ),
            decreases PUBKEY_BYTES - byte_idx,
        {
            let byte = vec.as_bytes()[byte_idx];
            if byte == 0 {
                proof {
                    assert forall|i: int| 8 * byte_idx <= i < 8 * byte_idx + 8 implies !v[i] by {
                        assert(i / 8 == byte_idx as int);
                        crate::bits::lemma_bit_zero((i % 8) as u8);
                    }
                    lemma_skip_zero_byte(v, h, byte_idx as int, 8);
                }
                byte_idx = byte_idx + 1;
                continue;
            }
            let mut bit: usize = 0;
            while bit < 8
                invariant
                    byte_idx < PUBKEY_BYTES,
                    bit <= 8,
                    num_words == NUM_WORDS,
                    words_to_bits(h_words@) == h,
                    v == bytes_to_bits(vec.bytes()),
                    vec.bytes().len() == PUBKEY_BYTES,
                    byte == vec.bytes()[byte_idx as int],
                    words_to_bits(result_words@) == Seq::new(
                        M as nat,
                        |k: int| conv_prefix(v, h, k, 8 * byte_idx + bit),
                    ),
                ensures
                    words_to_bits(result_words@) == Seq::new(
                        M as nat,
                        |k: int| conv_prefix(v, h, k, 8 * byte_idx + 8),
                    ),
                decreases 8 - bit,
            {
                let pos = byte_idx * 8 + bit;
                if pos >= M {
                    break;
                }
                proof {
                    lemma_bit_value(byte, bit as u8);
                    assert(pos / 8 == byte_idx as int && pos % 8 == bit as int);
                }
                if (byte >> (bit as u8)) & 1 == 0 {
                    proof {
                        assert(words_to_bits(result_words@) =~= Seq::new(
                            M as nat,
                            |k: int| conv_prefix(v, h, k, 8 * byte_idx + bit + 1),
                        ));
                    }
                    bit = bit + 1;
                    continue;
                }
                let word_shift = pos / 64;
                let bit_shift = pos % 64;
                let ghost before = result_words@;
                if bit_shift == 0 {
                    let mut i: usize = 0;
                    while i < num_words
                        invariant
                            num_words == NUM_WORDS,
                            i <= num_words,
                            word_shift < NUM_WORDS,
                            bit_shift == 0,
                            forall|j: int|
                                0 <= j < i ==> #[trigger] result_words@[j] == before[j] ^ (word_rot(
                                    h_words@,
                                    j,
                                    word_shift as int,
                                    bit_shift as u64,
                                ) & 0xFFFF_FFFF_FFFF_FFFFu64),
                            forall|j: int| i <= j < NUM_WORDS ==> #[trigger] result_words@[j]
                                == before[j],
                        decreases num_words - i,
                    {
                        let src = (i + num_words - word_shift) % num_words;
                        let x = h_words[src];
                        proof {
                            lemma_word_facts(x, 0u64);
                            assert(word_rot(h_words@, i as int, word_shift as int, bit_shift as u64)
                                == x);
                        }
                        result_words[i] = result_words[i] ^ x;
                        i = i + 1;
                    }
                } else {
                    let mut i: usize = 0;
                    while i < num_words
                        invariant
                            num_words == NUM_WORDS,
                            i <= num_words,
                            word_shift < NUM_WORDS,
                            0 < bit_shift < 64,
                            forall|j: int|
                                0 <= j < i ==> #[trigger] result_words@[j] == before[j] ^ (word_rot(
                                    h_words@,
                                    j,
                                    word_shift as int,
                                    bit_shift as u64,
                                ) & 0xFFFF_FFFF_FFFF_FFFFu64),
                            forall|j: int| i <= j < NUM_WORDS ==> #[trigger] result_words@[j]
                                == before[j],
                        decreases num_words - i,
                    {
                        let s0 = (i + num_words - word_shift) % num_words;
                        let s1 = (i + num_words - word_shift - 1) % num_words;
                        let v0 = h_words[s0];
                        let v1 = h_words[s1];
                        let bs64 = bit_shift as u64;
                        let w = (v0 << bs64) | (v1 >> (64 - bs64));
                        proof {
                            lemma_word_facts(w, 0u64);
                            assert(word_rot(h_words@, i as int, word_shift as int, bit_shift as u64)
                                == w);
                        }
                        result_words[i] = result_words[i] ^ w;
                        i = i + 1;
                    }
                }
                proof {
                    lemma_rotation_step(
                        before,
                        result_words@,
                        h_words@,
                        word_shift as int,
                        bit_shift as u64,
                        0xFFFF_FFFF_FFFF_FFFFu64,
                    );
                    assert(words_to_bits(result_words@) =~= Seq::new(
                        M as nat,
                        |k: int| conv_prefix(v, h, k, 8 * byte_idx + bit + 1),
                    ));
                }
                bit = bit + 1;
            }
            byte_idx = byte_idx + 1;
        }
        let out = words_to_bytes(&result_words);
        let r = Polynomial::from_bytes(&out);
        proof {
            assert(r@ =~= ring_mul(vec@, self@));
            lemma_ring_mul_commutative(vec@, self@);
        }
        r
    }
}

/// All-zero words have no set bit.
proof fn lemma_zero_words(w: Seq<u64>)
    requires
        w.len() == NUM_WORDS,
        forall|j: int| 0 <= j < NUM_WORDS ==> w[j] == 0,
    ensures
        words_to_bits(w) == Seq::new(M as nat, |k: int| conv_prefix(Seq::empty(), Seq::empty(), k, 0)),
{
    assert forall|k: int| 0 <= k < M implies !words_to_bits(w)[k] by {
        lemma_wbit_const((k % 64) as u64);
    }
    assert(words_to_bits(w) =~= Seq::new(M as nat, |k: int| conv_prefix(Seq::empty(), Seq::empty(), k, 0)));
}

/// A zero byte of `v` contributes nothing to the convolution.
proof fn lemma_skip_zero_byte(v: Seq<bool>, h: Seq<bool>, byte_idx: int, d: int)
    requires
        0 <= byte_idx < PUBKEY_BYTES,
        0 <= d <= 8,
        forall|i: int| 8 * byte_idx <= i < 8 * byte_idx + 8 ==> !v[i],
    ensures
        Seq::new(M as nat, |k: int| conv_prefix(v, h, k, 8 * byte_idx + d)) == Seq::new(
            M as nat,
            |k: int| conv_prefix(v, h, k, 8 * byte_idx),
        ),
    decreases d,
{
    if d > 0 {
        lemma_skip_zero_byte(v, h, byte_idx, d - 1);
        assert(Seq::new(M as nat, |k: int| conv_prefix(v, h, k, 8 * byte_idx + d)) =~= Seq::new(
            M as nat,
            |k: int| conv_prefix(v, h, k, 8 * byte_idx + d - 1),
        ));
    }
}

/// `pos >> 6` and `pos & 63` split a position into word and bit.
proof fn lemma_split_pos(pos: usize)
    ensures
        pos >> 6 == pos / 64,
        pos & 63 == pos % 64,
{
    lemma_split_word_index(pos);
}

/// One word of the branch-free rotation: `v0` shifted left by `bs` with the
/// top bits of `v1` shifted in, or `v0` itself for a zero shift.
fn rotated_word(v0: u64, v1: u64, bs: usize, shift_mask: u64, shift_right: usize) -> (r: u64)
    requires
        bs < 64,
        shift_mask == (if bs == 0 { 0xFFFF_FFFF_FFFF_FFFFu64 } else { 0u64 }),
        shift_right == (if bs == 0 { 0 } else { 64 - bs }),
    ensures
        r == (if bs == 0 { v0 } else { (v0 << (bs as u64)) | (v1 >> ((64 - bs) as u64)) }),
{
    let shifted = (v0.wrapping_shl(bs as u32) | v1.wrapping_shr(shift_right as u32)) & !shift_mask;
    let no_shift = v0 & shift_mask;
    proof {
        lemma_ct_select(v0, v1, bs as u64);
    }
    no_shift | shifted
}

/// Xors into `acc` the rotation of `h` by `64 * ws + bs` words and bits,
/// masked by `mask`: the source words are read in order, with no index
/// arithmetic modulo the word count.
fn xor_rotated_into(
    acc: &mut [u64; NUM_WORDS],
    h: &[u64; NUM_WORDS],
    ws: usize,
    bs: usize,
    shift_mask: u64,
    shift_right: usize,
    mask: u64,
)
    requires
        ws < NUM_WORDS,
        bs < 64,
        shift_mask == (if bs == 0 { 0xFFFF_FFFF_FFFF_FFFFu64 } else { 0u64 }),
        shift_right == (if bs == 0 { 0 } else { 64 - bs }),
    ensures
        forall|j: int|
            0 <= j < NUM_WORDS ==> #[trigger] final(acc)@[j] == old(acc)@[j] ^ (word_rot(h@, j, ws as int, bs as u64)
                & mask),
{
    let n: usize = NUM_WORDS;
    let ghost start = acc@;
    // Words before the wrap: the sources are n - ws + i and the word before it.
    let mut i: usize = 0;
    while i < ws
        invariant
            n == NUM_WORDS,
            ws < NUM_WORDS,
            bs < 64,
            i <= ws,
            shift_mask == (if bs == 0 { 0xFFFF_FFFF_FFFF_FFFFu64 } else { 0u64 }),
            shift_right == (if bs == 0 { 0 } else { 64 - bs }),
            forall|j: int| 0 <= j < i ==> #[trigger] acc@[j] == start[j] ^ (word_rot(h@, j, ws as int, bs as u64) & mask),
            forall|j: int| i <= j < NUM_WORDS ==> #[trigger] acc@[j] == start[j],
        decreases ws - i,
    {
        let s0 = i + n - ws;
        let s1 = s0 - 1;
        let w = rotated_word(h[s0], h[s1], bs, shift_mask, shift_right);
        proof {
            lemma_small_mod(s0 as nat, n as nat);
            lemma_small_mod(s1 as nat, n as nat);
        }
        acc[i] = acc[i] ^ (w & mask);
        i = i + 1;
    }
    // The word at the wrap: sources 0 and n - 1.
    let w_wrap = rotated_word(h[0], h[n - 1], bs, shift_mask, shift_right);
    proof {
        lemma_mod_self_0(n as int);
        lemma_small_mod((n - 1) as nat, n as nat);
        assert((ws + n - ws) % (n as int) == 0);
    }
    acc[ws] = acc[ws] ^ (w_wrap & mask);
    // Words after the wrap: sources i - ws and i - ws - 1.
    let mut i: usize = ws + 1;
    while i < n
        invariant
            n == NUM_WORDS,
            ws < NUM_WORDS,
            bs < 64,
            ws < i <= n,
            shift_mask == (if bs == 0 { 0xFFFF_FFFF_FFFF_FFFFu64 } else { 0u64 }),
            shift_right == (if bs == 0 { 0 } else { 64 - bs }),
            forall|j: int| 0 <= j < i ==> #[trigger] acc@[j] == start[j] ^ (word_rot(h@, j, ws as int, bs as u64) & mask),
            forall|j: int| i <= j < NUM_WORDS ==> #[trigger] acc@[j] == start[j],
        decreases n - i,
    {
        let s0 = i - ws;
        let s1 = s0 - 1;
        let w = rotated_word(h[s0], h[s1], bs, shift_mask, shift_right);
        proof {
            lemma_mod_add_back(s0 as int, n as int);
            lemma_mod_add_back(s1 as int, n as int);
        }
        acc[i] = acc[i] ^ (w & mask);
        i = i + 1;
    }
}

/// `(x + n) mod n == x` for `0 <= x < n`.
proof fn lemma_mod_add_back(x: int, n: int)
    requires
        0 <= x < n,
    ensures
        (x + n) % n == x,
{
    lemma_fundamental_div_mod_converse_mod(x + n, n, 1, x);
}

/// The branch-free shift controls: an all-ones mask exactly for a zero shift,
/// and the complementary right shift.
proof fn lemma_shift_controls(bs: u64)
    requires
        bs < 64,
    ensures
        0u64.wrapping_sub(bs.wrapping_sub(1) >> 63) == (if bs == 0 {
            0xFFFF_FFFF_FFFF_FFFFu64
        } else {
            0u64
        }),
{
    if bs == 0 {
        lemma_word_facts(0u64, 0u64);
    } else {
        let d = (bs - 1) as u64;
        lemma_word_facts(0u64, d);
    }
}

/// The right-shift amount `(64 - bs) & 63`.
proof fn lemma_right_shift_amount(bs: usize)
    requires
        bs < 64,
    ensures
        ((64 - bs) as usize) & 63 == (if bs == 0 { 0 } else { 64 - bs }),
{
    let d = (64 - bs) as usize;
    assert(d & 63 == (if d == 64 { 0 } else { d })) by (bit_vector)
        requires
            0 < d <= 64,
    ;
}

/// `0 - v` for a bit `v` is all zeros or all ones.
proof fn lemma_all_or_nothing(v: u64)
    requires
        v <= 1,
    ensures
        0xFFFF_FFFF_FFFF_FFFFu64 & 0u64.wrapping_sub(v) == (if v == 1 {
            0xFFFF_FFFF_FFFF_FFFFu64
        } else {
            0u64
        }),
{
    lemma_word_facts(v, 0u64);
}

/// The branch-free selection between the plain word and the funnel shift.
proof fn lemma_ct_select(v0: u64, v1: u64, bs: u64)
    requires
        bs < 64,
    ensures
        ({
            let shift_mask = if bs == 0 { 0xFFFF_FFFF_FFFF_FFFFu64 } else { 0u64 };
            let shift_right = if bs == 0 { 0u64 } else { (64 - bs) as u64 };
            (v0 & shift_mask) | ((v0.wrapping_shl(bs as u32) | v1.wrapping_shr(shift_right as u32))
                & !shift_mask)
        }) == if bs == 0 {
            v0
        } else {
            (v0 << bs) | (v1 >> ((64 - bs) as u64))
        },
{
    if bs == 0 {
        assert((v0 & 0xFFFF_FFFF_FFFF_FFFFu64) | ((v0.wrapping_shl(0u32) | v1.wrapping_shr(0u32))
            & !0xFFFF_FFFF_FFFF_FFFFu64) == v0) by (bit_vector);
    } else {
        let sr = (64 - bs) as u64;
        assert(v0.wrapping_shl(bs as u32) == v0 << bs);
        assert(v1.wrapping_shr(sr as u32) == v1 >> sr);
        assert((v0 & 0u64) | (((v0 << bs) | (v1 >> sr)) & !0u64) == (v0 << bs) | (v1 >> sr))
            by (bit_vector);
    }
}

/// Where bit `b` of word `j` of a rotation by `64 * ws + bs` comes from.
proof fn lemma_word_source(j: int, ws: int, bs: int, b: int)
    requires
        0 <= j < NUM_WORDS,
        0 <= ws < NUM_WORDS,
        0 <= bs < 64,
        0 <= b < 64,
    ensures
        b >= bs ==> sub_mod(64 * j + b, 64 * ws + bs) == 64 * ((j + NUM_WORDS - ws) % (
        NUM_WORDS as int)) + b - bs,
        b < bs ==> sub_mod(64 * j + b, 64 * ws + bs) == 64 * ((j + NUM_WORDS - ws - 1) % (
        NUM_WORDS as int)) + 64 + b - bs,
{
    let nw = NUM_WORDS as int;
    let m = M as int;
    let t0 = j + nw - ws;
    let t1 = j + nw - ws - 1;
    if t0 >= nw {
        lemma_mod_multiples_vanish(1, t0 - nw, nw);
        lemma_small_mod((t0 - nw) as nat, nw as nat);
    } else {
        lemma_small_mod(t0 as nat, nw as nat);
    }
    if t1 >= nw {
        lemma_mod_multiples_vanish(1, t1 - nw, nw);
        lemma_small_mod((t1 - nw) as nat, nw as nat);
    } else {
        lemma_small_mod(t1 as nat, nw as nat);
    }
    let x = 64 * j + b - (64 * ws + bs);
    if b >= bs {
        let r = 64 * (t0 % nw) + b - bs;
        assert(0 <= r < m);
        if t0 >= nw {
            assert(x == r);
            lemma_small_mod(r as nat, m as nat);
        } else {
            assert(x + m == r);
            lemma_mod_multiples_vanish(-1, r, m);
        }
    } else {
        let r = 64 * (t1 % nw) + 64 + b - bs;
        assert(0 <= r < m);
        if t1 >= nw {
            assert(x == r);
            lemma_small_mod(r as nat, m as nat);
        } else {
            assert(x + m == r);
            lemma_mod_multiples_vanish(-1, r, m);
        }
    }
}

/// Bit `b` of `word_rot` is the rotated coefficient.
proof fn lemma_word_rot_bit(h: Seq<u64>, j: int, ws: int, bs: u64, b: u64)
    requires
        h.len() == NUM_WORDS,
        0 <= j < NUM_WORDS,
        0 <= ws < NUM_WORDS,
        bs < 64,
        b < 64,
    ensures
        wbit(word_rot(h, j, ws, bs), b) == words_to_bits(h)[sub_mod(64 * j + b, 64 * ws + bs)],
{
    let nw = NUM_WORDS as int;
    lemma_word_source(j, ws, bs as int, b as int);
    let s0 = (j + nw - ws) % nw;
    let s1 = (j + nw - ws - 1) % nw;
    if bs == 0 {
        let g = 64 * s0 + b;
        assert(g / 64 == s0 && g % 64 == b as int);
    } else {
        lemma_word_funnel(h[s0], h[s1], bs, b);
        if b >= bs {
            let g = 64 * s0 + b - bs;
            assert(g / 64 == s0 && g % 64 == b - bs);
        } else {
            let g = 64 * s1 + 64 + b - bs;
            assert(g / 64 == s1 && g % 64 == 64 + b - bs);
        }
    }
}

/// Xoring the masked rotation into every word adds the rotation, bit by bit,
/// when the mask is all ones and nothing when it is zero.
proof fn lemma_rotation_step(
    before: Seq<u64>,
    after: Seq<u64>,
    h: Seq<u64>,
    ws: int,
    bs: u64,
    mask: u64,
)
    requires
        before.len() == NUM_WORDS,
        after.len() == NUM_WORDS,
        h.len() == NUM_WORDS,
        0 <= ws < NUM_WORDS,
        bs < 64,
        mask == 0 || mask == 0xFFFF_FFFF_FFFF_FFFFu64,
        forall|j: int|
            0 <= j < NUM_WORDS ==> #[trigger] after[j] == before[j] ^ (word_rot(h, j, ws, bs)
                & mask),
    ensures
        words_to_bits(after) == Seq::new(
            M as nat,
            |k: int|
                words_to_bits(before)[k] != (mask != 0 && words_to_bits(h)[sub_mod(
                    k,
                    64 * ws + bs,
                )]),
        ),
{
    let l = words_to_bits(after);
    let r = Seq::new(
        M as nat,
        |k: int| words_to_bits(before)[k] != (mask != 0 && words_to_bits(h)[sub_mod(k, 64 * ws + bs)]),
    );
    assert forall|k: int| 0 <= k < M implies l[k] == r[k] by {
        let j = k / 64;
        let b = (k % 64) as u64;
        let w = word_rot(h, j, ws, bs);
        lemma_wbit_xor(before[j], w & mask, b);
        lemma_wbit_and(w, mask, b);
        lemma_wbit_const(b);
        lemma_word_rot_bit(h, j, ws, bs, b);
        assert(64 * j + b == k);
    }
    assert(l =~= r);
}

/// Assembles eight little-endian bytes into a word.
fn le_word(buf: &[u8; 8]) -> (r: u64)
    ensures
        forall|g: u64| g < 64 ==> #[trigger] wbit(r, g) == bit(buf@[(g / 8) as int], (g % 8) as u8),
{
    let mut w: u64 = 0;
    let mut k: usize = 0;
    proof {
        lemma_word_facts(0u64, 0u64);
    }
    while k < 8
        invariant
            k <= 8,
            k < 8 ==> w >> (8 * k as u64) == 0,
            forall|g: u64| g < 8 * k ==> #[trigger] wbit(w, g) == bit(buf@[(g / 8) as int], (g % 8) as u8),
        decreases 8 - k,
    {
        let ghost prev = w;
        let b = buf[k];
        w = w | ((b as u64) << (8 * k as u64));
        proof {
            assert forall|g: u64| g < 8 * (k + 1) implies #[trigger] wbit(w, g) == bit(
                buf@[(g / 8) as int],
                (g % 8) as u8,
            ) by {
                lemma_word_lane(prev, b, k as u64, g);
            }
            lemma_word_lane(prev, b, k as u64, 0);
        }
        k = k + 1;
    }
    w
}

/// Byte `k` of a word, counted from the least significant.
pub open spec fn word_byte(w: u64, k: int) -> u8 {
    (w >> (8 * k) as u64) as u8
}

/// Packs a ring element into 64-bit little-endian words: byte `k` of word
/// `i` (from the least significant end) is byte `8 i + k`.
pub fn bytes_to_words(bytes: &[u8; PUBKEY_BYTES]) -> (r: [u64; NUM_WORDS])
    ensures
        words_to_bits(r@) == bytes_to_bits(bytes@),
        forall|i: int, k: int|
            0 <= i < NUM_WORDS && 0 <= k < 8 ==> #[trigger] word_byte(r@[i], k) == bytes@[8 * i + k],
{
    let mut words = [0u64; NUM_WORDS];
    let mut i: usize = 0;
    while i < NUM_WORDS
        invariant
            i <= NUM_WORDS,
            forall|g: int| 0 <= g < 64 * i ==> #[trigger] words_to_bits(words@)[g] == bytes_to_bits(
                bytes@,
            )[g],
        decreases NUM_WORDS - i,
    {
        let off = i * 8;
        let mut buf = [0u8; 8];
        let remaining = PUBKEY_BYTES.saturating_sub(off);
        let to_copy = if remaining < 8 { remaining } else { 8 };
        let mut k: usize = 0;
        while k < to_copy
            invariant
                i < NUM_WORDS,
                off == i * 8,
                to_copy == 8,
                k <= to_copy,
                forall|t: int| 0 <= t < k ==> buf@[t] == bytes@[off + t],
            decreases to_copy - k,
        {
            buf[k] = bytes[off + k];
            k = k + 1;
        }
        let w = le_word(&buf);
        let ghost prev = words@;
        words[i] = w;
        proof {
            assert forall|g: int| 0 <= g < 64 * (i + 1) implies #[trigger] words_to_bits(words@)[g]
                == bytes_to_bits(bytes@)[g] by {
                if g >= 64 * i {
                    let gg = (g - 64 * i) as u64;
                    assert(wbit(w, gg) == bit(buf@[(gg / 8) as int], (gg % 8) as u8));
                    assert(g / 64 == i as int && g % 64 == gg as int);
                    assert(g / 8 == off + gg / 8);
                    assert(g % 8 == gg % 8);
                    assert(buf@[(gg / 8) as int] == bytes@[g / 8]);
                    assert(words@[i as int] == w);
                    assert(words_to_bits(words@)[g] == wbit(words@[g / 64], (g % 64) as u64));
                    assert(bytes_to_bits(bytes@)[g] == bit(bytes@[g / 8], (g % 8) as u8));
                } else {
                    assert(words@[g / 64] == prev[g / 64]);
                    assert(words_to_bits(prev)[g] == bytes_to_bits(bytes@)[g]);
                    assert(words_to_bits(words@)[g] == wbit(words@[g / 64], (g % 64) as u64));
                    assert(words_to_bits(prev)[g] == wbit(prev[g / 64], (g % 64) as u64));
                }
            }
        }
        i = i + 1;
    }
    proof {
        assert(words_to_bits(words@) =~= bytes_to_bits(bytes@));
    }
    proof {
        assert forall|i: int, k: int| 0 <= i < NUM_WORDS && 0 <= k < 8 implies #[trigger] word_byte(
            words@[i],
            k,
        ) == bytes@[8 * i + k] by {
            let w = words@[i];
            let x = (w >> (8 * k) as u64) as u8;
            assert forall|j: u8| j < 8 implies #[trigger] bit(x, j) == bit(bytes@[8 * i + k], j) by {
                lemma_word_byte(w, k as u64, j);
                let g = 64 * i + 8 * k + j;
                assert(words_to_bits(words@)[g] == bytes_to_bits(bytes@)[g]);
                assert(g / 64 == i && g % 64 == 8 * k + j);
                assert(g / 8 == 8 * i + k && g % 8 == j);
            }
            lemma_byte_ext(x, bytes@[8 * i + k]);
        }
    }
    words
}

/// Unpacks 64-bit little-endian words into bytes.
fn words_to_bytes(words: &[u64; NUM_WORDS]) -> (r: [u8; PUBKEY_BYTES])
    ensures
        bytes_to_bits(r@) == words_to_bits(words@),
{
    let mut bytes = [0u8; PUBKEY_BYTES];
    let mut i: usize = 0;
    while i < NUM_WORDS
        invariant
            i <= NUM_WORDS,
            forall|g: int| 0 <= g < 64 * i ==> #[trigger] bytes_to_bits(bytes@)[g] == words_to_bits(
                words@,
            )[g],
        ensures
            forall|g: int| 0 <= g < M ==> #[trigger] bytes_to_bits(bytes@)[g] == words_to_bits(
                words@,
            )[g],
        decreases NUM_WORDS - i,
    {
        let off = i * 8;
        if off >= PUBKEY_BYTES {
            break;
        }
        let w = words[i];
        let to_copy = if PUBKEY_BYTES - off < 8 { PUBKEY_BYTES - off } else { 8 };
        let mut k: usize = 0;
        let ghost prev = bytes@;
        while k < to_copy
            invariant
                i < NUM_WORDS,
                off == i * 8,
                to_copy == 8,
                k <= to_copy,
                w == words@[i as int],
                forall|t: int| 0 <= t < k ==> #[trigger] bytes@[off + t] == (w >> (8 * t as u64)) as u8,
                forall|t: int|
                    0 <= t < PUBKEY_BYTES && !(off <= t < off + k) ==> bytes@[t] == prev[t],
            decreases to_copy - k,
        {
            bytes[off + k] = (w >> (8 * k as u64)) as u8;
            k = k + 1;
        }
        proof {
            assert forall|g: int| 0 <= g < 64 * (i + 1) implies #[trigger] bytes_to_bits(bytes@)[g]
                == words_to_bits(words@)[g] by {
                if g >= 64 * i {
                    let t = (g - 64 * i) / 8;
                    let jj = ((g - 64 * i) % 8) as u8;
                    lemma_word_byte(w, t as u64, jj);
                    assert(g / 8 == off + t);
                    assert(g % 8 == jj as int);
                    assert(g / 64 == i as int && g % 64 == 8 * t + jj);
                    assert(bytes@[off + t] == (w >> (8 * t as u64)) as u8);
                    assert(bytes_to_bits(bytes@)[g] == bit(bytes@[g / 8], (g % 8) as u8));
                    assert(words_to_bits(words@)[g] == wbit(words@[g / 64], (g % 64) as u64));
                } else {
                    assert(bytes@[g / 8] == prev[g / 8]);
                    assert(bytes_to_bits(prev)[g] == words_to_bits(words@)[g]);
                    assert(bytes_to_bits(bytes@)[g] == bit(bytes@[g / 8], (g % 8) as u8));
                    assert(bytes_to_bits(prev)[g] == bit(prev[g / 8], (g % 8) as u8));
                }
            }
        }
        i = i + 1;
    }
    proof {
        assert(bytes_to_bits(bytes@) =~= words_to_bits(words@));
    }
    bytes
}

} // verus!

//! Elements of R = GF(2)[x] / (x^M - 1), packed eight coefficients per byte.

use vstd::prelude::*;
use crate::bits::{
    lemma_byte_facts, lemma_byte_shift, lemma_mask_from_bit,
    bit, bytes_to_bits, count_true, lemma_bit_and, lemma_bit_funnel, lemma_bit_toggle, lemma_bit_value, lemma_bit_write,
    lemma_bit_xor, lemma_bit_zero, lemma_byte_ext, lemma_bytes_to_bits_injective, lemma_count_bytes,
    lemma_count_true_zero, lemma_popcount_le_8, lemma_popcount_sum, popcount_bytes,
};
use crate::parameters::{M, PUBKEY_BYTES};
use crate::error::{ArcError, ArcResult};
use crate::primitives::{
    bit_value_message, bits_length_message, ct_eq_packed, zeroize_array,
};
use crate::source::{
    byte_values, draws_since, extends, lemma_shuffled_facts, shuffle_choice, shuffle_draws_valid, shuffled,
    values_bytes, RandomSource,
};
use crate::ring::{
    conv_prefix, lemma_conv_prefix_ones, lemma_count_positions, lemma_ones_prefix_shape,
    lemma_ones_prefix_skip, lemma_ring_mul_commutative, lemma_unit_odd_weight, odd_weight, ones_prefix, ring_mul, ring_one, ring_zero,
    rotate, sub_mod, xor_rotations,
};
use vstd::arithmetic::div_mod::{lemma_mod_multiples_vanish, lemma_mod_self_0, lemma_small_mod};
use vstd::slice::slice_to_vec;
use crate::gf2x::{binary, ext_gcd_poly, lemma_red_move, lemma_red_one, lemma_red_same, lemma_redc_small, pc, pc_fn, red};

verus! {

/// A ring element; bit 0 of byte 0 is the coefficient of x^0.
#[derive(Clone, Debug, PartialEq, Eq)]
pub struct Polynomial {
    data: [u8; PUBKEY_BYTES],
}

impl View for Polynomial {
    type V = Seq<bool>;

    /// The M coefficients, lowest degree first.
    closed spec fn view(&self) -> Seq<bool> {
        bytes_to_bits(self.data@)
    }
}

impl Drop for Polynomial {
    /// Wipes the coefficients when the element goes out of scope.
    fn drop(&mut self)
        opens_invariants none
        no_unwind
    {
        zeroize_array(&mut self.data);
    }
}

impl Polynomial {
    /// The packed bytes.
    pub closed spec fn bytes(&self) -> Seq<u8> {
        self.data@
    }

    pub proof fn lemma_view(&self)
        ensures
            self.bytes().len() == PUBKEY_BYTES,
            self@ == bytes_to_bits(self.bytes()),
            self@.len() == M,
    {
    }

    /// The all-zero polynomial.
    pub fn zero() -> (r: Polynomial)
        ensures
            forall|i: int| 0 <= i < M ==> !#[trigger] r@[i],
            r@.len() == M,
            forall|i: int| 0 <= i < PUBKEY_BYTES ==> #[trigger] r.bytes()[i] == 0,
    {
        let r = Polynomial { data: [0u8; PUBKEY_BYTES] };
        proof {
            assert forall|i: int| 0 <= i < M implies !#[trigger] r@[i] by {
                lemma_bit_zero((i % 8) as u8);
            }
        }
        r
    }

    /// Coefficient `index` as 0 or 1.
    pub fn get_bit(&self, index: usize) -> (r: u8)
        requires
            index < M,
        ensures
            r == (if self@[index as int] { 1u8 } else { 0u8 }),
    {
        proof {
            lemma_bit_value(self.data[index as int / 8], (index % 8) as u8);
        }
        (self.data[index / 8] >> ((index % 8) as u8)) & 1
    }

    /// Sets coefficient `index` to the low bit of `value`.
    pub fn set_bit(&mut self, index: usize, value: u8)
        requires
            index < M,
        ensures
            final(self)@ == old(self)@.update(index as int, value & 1 == 1),
            final(self).bytes() == old(self).bytes().update(
                index as int / 8,
                (old(self).bytes()[index as int / 8] & !(1u8 << (index % 8) as u8)) | ((value
                    & 1u8) << (index % 8) as u8),
            ),
    {
        let k = (index % 8) as u8;
        let mask = 1u8 << k;
        let byte = self.data[index / 8];
        self.data[index / 8] = (byte & !mask) | ((value & 1) << k);
        proof {
            assert forall|i: int| 0 <= i < M implies #[trigger] self@[i] == old(self)@.update(
                index as int,
                value & 1 == 1,
            )[i] by {
                if i / 8 == index / 8 {
                    lemma_bit_write(byte, k, value, (i % 8) as u8);
                }
            }
            assert(self@ =~= old(self)@.update(index as int, value & 1 == 1));
        }
    }

    /// Toggles coefficient `index`.
    pub fn flip_bit(&mut self, index: usize)
        requires
            index < M,
        ensures
            final(self)@ == old(self)@.update(index as int, !old(self)@[index as int]),
    {
        let k = (index % 8) as u8;
        let byte = self.data[index / 8];
        self.data[index / 8] = byte ^ (1u8 << k);
        proof {
            assert forall|i: int| 0 <= i < M implies #[trigger] self@[i] == old(self)@.update(
                index as int,
                !old(self)@[index as int],
            )[i] by {
                if i / 8 == index / 8 {
                    lemma_bit_toggle(byte, k, 1u8, (i % 8) as u8);
                }
            }
            assert(self@ =~= old(self)@.update(index as int, !old(self)@[index as int]));
        }
    }

    /// Xors `mask << (index % 8)` into the byte holding coefficient `index`;
    /// with a mask of 0 or 1 this toggles the coefficient exactly when the mask is 1.
    pub fn flip_bit_ct(&mut self, index: usize, mask: u8)
        requires
            index < M,
        ensures
            final(self).bytes() == old(self).bytes().update(
                index as int / 8,
                old(self).bytes()[index as int / 8] ^ (mask << (index % 8) as u8),
            ),
            mask <= 1 ==> final(self)@ == old(self)@.update(
                index as int,
                old(self)@[index as int] != (mask == 1),
            ),
    {
        let k = (index % 8) as u8;
        let byte = self.data[index / 8];
        self.data[index / 8] = byte ^ (mask << k);
        proof {
            if mask <= 1 {
                assert forall|i: int| 0 <= i < M implies #[trigger] self@[i] == old(self)@.update(
                    index as int,
                    old(self)@[index as int] != (mask == 1),
                )[i] by {
                    if i / 8 == index / 8 {
                        lemma_bit_toggle(byte, k, mask, (i % 8) as u8);
                    }
                }
                assert(self@ =~= old(self)@.update(
                    index as int,
                    old(self)@[index as int] != (mask == 1),
                ));
            }
        }
    }

    /// Hamming weight: the number of nonzero coefficients.
    pub fn weight(&self) -> (r: usize)
        ensures
            r == count_true(self@),
    {
        let mut total: usize = 0;
        let mut i: usize = 0;
        while i < PUBKEY_BYTES
            invariant
                i <= PUBKEY_BYTES,
                total == popcount_bytes(self.data@.take(i as int)),
                total <= 8 * i,
            decreases PUBKEY_BYTES - i,
        {
            let b = self.data[i];
            proof {
                lemma_popcount_sum(b);
                lemma_popcount_le_8(b);
                assert(self.data@.take(i + 1).drop_last() =~= self.data@.take(i as int));
            }
            total = total + ((b & 1) + ((b >> 1) & 1) + ((b >> 2) & 1) + ((b >> 3) & 1) + ((b
                >> 4) & 1) + ((b >> 5) & 1) + ((b >> 6) & 1) + ((b >> 7) & 1)) as usize;
            i = i + 1;
        }
        proof {
            assert(self.data@.take(PUBKEY_BYTES as int) =~= self.data@);
            lemma_count_bytes(self.data@);
        }
        total
    }

    /// True when every coefficient is zero.
    pub fn is_zero(&self) -> (r: bool)
        ensures
            r == (forall|i: int| 0 <= i < M ==> !#[trigger] self@[i]),
            r == (count_true(self@) == 0),
    {
        let mut i: usize = 0;
        while i < PUBKEY_BYTES
            invariant
                i <= PUBKEY_BYTES,
                forall|j: int| 0 <= j < i ==> self.data@[j] == 0,
            decreases PUBKEY_BYTES - i,
        {
            if self.data[i] != 0 {
                proof {
                    let b = self.data@[i as int];
                    assert(exists|k: u8| k < 8 && bit(b, k)) by {
                        if forall|k: u8| k < 8 ==> !bit(b, k) {
                            assert forall|k: u8| k < 8 implies bit(b, k) == bit(0u8, k) by {
                                lemma_bit_zero(k);
                            }
                            lemma_byte_ext(b, 0u8);
                        }
                    }
                    let k = choose|k: u8| k < 8 && bit(b, k);
                    let idx = i * 8 + k;
                    assert(idx / 8 == i && idx % 8 == k);
                    assert(self@[idx as int]);
                    lemma_count_true_zero(self@);
                }
                return false;
            }
            i = i + 1;
        }
        proof {
            assert forall|j: int| 0 <= j < M implies !#[trigger] self@[j] by {
                lemma_bit_zero((j % 8) as u8);
            }
            lemma_count_true_zero(self@);
        }
        true
    }

    /// Coefficient-wise equality.
    pub fn equals(&self, other: &Self) -> (r: bool)
        ensures
            r == (self@ == other@),
    {
        let mut i: usize = 0;
        while i < PUBKEY_BYTES
            invariant
                i <= PUBKEY_BYTES,
                forall|j: int| 0 <= j < i ==> self.data@[j] == other.data@[j],
            decreases PUBKEY_BYTES - i,
        {
            if self.data[i] != other.data[i] {
                proof {
                    if self@ == other@ {
                        lemma_bytes_to_bits_injective(self.data@, other.data@);
                    }
                }
                return false;
            }
            i = i + 1;
        }
        proof {
            assert(self.data@ =~= other.data@);
        }
        true
    }

    /// The packed bytes.
    pub fn as_bytes(&self) -> (r: &[u8; PUBKEY_BYTES])
        ensures
            r@ == self.bytes(),
            bytes_to_bits(r@) == self@,
    {
        &self.data
    }

    /// Builds a polynomial from its packed bytes (all M coefficients are used).
    pub fn from_bytes(bytes: &[u8; PUBKEY_BYTES]) -> (r: Polynomial)
        ensures
            r.bytes() == bytes@,
            r@ == bytes_to_bits(bytes@),
    {
        let mut poly = Polynomial { data: *bytes };
        let remainder = M % 8;
        if remainder != 0 {
            poly.data[PUBKEY_BYTES - 1] = poly.data[PUBKEY_BYTES - 1] & ((1u8 << remainder as u8)
                - 1);
        }
        poly
    }

    /// Ring addition: coefficient-wise exclusive or.
    pub fn add(&self, other: &Self) -> (r: Polynomial)
        ensures
            r@.len() == M,
            forall|i: int| 0 <= i < M ==> #[trigger] r@[i] == (self@[i] != other@[i]),
    {
        let mut result = Polynomial::zero();
        let mut i: usize = 0;
        while i < PUBKEY_BYTES
            invariant
                i <= PUBKEY_BYTES,
                forall|j: int| 0 <= j < i ==> result.data@[j] == self.data@[j] ^ other.data@[j],
            decreases PUBKEY_BYTES - i,
        {
            result.data[i] = self.data[i] ^ other.data[i];
            i = i + 1;
        }
        proof {
            assert forall|j: int| 0 <= j < M implies #[trigger] result@[j] == (self@[j]
                != other@[j]) by {
                lemma_bit_xor(self.data@[j / 8], other.data@[j / 8], (j % 8) as u8);
            }
        }
        result
    }

    /// Wipes every coefficient.
    pub fn zeroize(&mut self)
        ensures
            forall|i: int| 0 <= i < M ==> !#[trigger] final(self)@[i],
            count_true(final(self)@) == 0,
    {
        zeroize_array(&mut self.data);
        proof {
            assert forall|i: int| 0 <= i < M implies !#[trigger] self@[i] by {
                lemma_bit_zero((i % 8) as u8);
            }
            lemma_count_true_zero(self@);
        }
    }

    /// The polynomial whose ones are exactly the listed positions.
    pub fn from_positions(positions: &[usize]) -> (r: Polynomial)
        requires
            forall|t: int| 0 <= t < positions@.len() ==> #[trigger] positions@[t] < M,
        ensures
            r@ == Seq::new(M as nat, |i: int| positions@.contains(i as usize)),
    {
        let mut poly = Polynomial::zero();
        let mut t: usize = 0;
        while t < positions.len()
            invariant
                t <= positions@.len(),
                forall|u: int| 0 <= u < positions@.len() ==> #[trigger] positions@[u] < M,
                poly@ == Seq::new(M as nat, |i: int| positions@.take(t as int).contains(i as usize)),
            decreases positions@.len() - t,
        {
            let pos = positions[t];
            let ghost prev = poly@;
            poly.set_bit(pos, 1);
            proof {
                lemma_byte_facts(0u8, 0u8);
                let before = positions@.take(t as int);
                let after = positions@.take(t + 1);
                assert(after == before.push(pos));
                assert forall|i: int| 0 <= i < M implies #[trigger] poly@[i] == after.contains(
                    i as usize,
                ) by {
                    if i == pos as int {
                        assert(after[t as int] == pos);
                    } else {
                        assert(poly@[i] == prev[i]);
                        if after.contains(i as usize) {
                            let u = choose|u: int| 0 <= u < after.len() && after[u] == i as usize;
                            assert(before[u] == i as usize);
                        }
                        if before.contains(i as usize) {
                            let u = choose|u: int| 0 <= u < before.len() && before[u] == i as usize;
                            assert(after[u] == i as usize);
                        }
                    }
                }
                assert(poly@ =~= Seq::new(M as nat, |i: int| after.contains(i as usize)));
            }
            t = t + 1;
        }
        proof {
            assert(positions@.take(positions@.len() as int) == positions@);
        }
        poly
    }

    /// Builds a polynomial from M entries that are each 0 or 1.
    pub fn from_bits(bits: &[u8]) -> (r: ArcResult<Self>)
        ensures
            r is Ok <==> (bits@.len() == M && forall|i: int| 0 <= i < bits@.len() ==> #[trigger] bits@[i]
                <= 1),
            r matches Ok(p) ==> p@ == Seq::new(M as nat, |i: int| bits@[i] == 1),
            r matches Err(e) ==> e is InvalidInput,
    {
        if bits.len() != M {
            return Err(ArcError::InvalidInput(bits_length_message(M, bits.len())));
        }
        let mut poly = Polynomial::zero();
        let mut i: usize = 0;
        while i < bits.len()
            invariant
                bits@.len() == M,
                i <= M,
                forall|j: int| 0 <= j < i ==> #[trigger] bits@[j] <= 1,
                forall|j: int| 0 <= j < M ==> #[trigger] poly@[j] == (j < i && bits@[j] == 1),
                poly@.len() == M,
            decreases M - i,
        {
            let b = bits[i];
            if b == 1 {
                poly.set_bit(i, 1);
                proof {
                    lemma_byte_facts(0u8, 0u8);
                }
            } else if b != 0 {
                return Err(ArcError::InvalidInput(bit_value_message(i, b)));
            }
            i = i + 1;
        }
        proof {
            assert(poly@ =~= Seq::new(M as nat, |j: int| bits@[j] == 1));
        }
        Ok(poly)
    }

    /// A uniformly shuffled choice of `weight` distinct coefficients set to one.
    /// The result holds the positions that `weight` shuffle steps with the
    /// drawn indices put first.
    pub fn random_with_weight<R: RandomSource>(rng: &mut R, weight: usize) -> (r: Polynomial)
        requires
            weight <= M,
        ensures
            count_true(r@) == weight,
            extends(old(rng).drawn(), final(rng).drawn()),
            shuffle_draws_valid(M as int, draws_since(old(rng).drawn(), final(rng).drawn()), weight as int),
            r@ == shuffle_choice(M as int, draws_since(old(rng).drawn(), final(rng).drawn()), weight as int),
    {
        let ghost d0 = rng.drawn();
        let ghost mut js: Seq<int> = Seq::empty();
        let mut positions: Vec<usize> = Vec::new();
        let mut k: usize = 0;
        while k < M
            invariant
                k <= M,
                positions@.len() == k,
                forall|t: int| 0 <= t < k ==> #[trigger] positions@[t] == t,
            decreases M - k,
        {
            positions.push(k);
            k = k + 1;
        }
        let mut i: usize = 0;
        while i < weight
            invariant
                weight <= M,
                i <= weight,
                positions@.len() == M,
                positions@.no_duplicates(),
                forall|t: int| 0 <= t < M ==> #[trigger] positions@[t] < M,
                rng.drawn() == d0 + js,
                shuffle_draws_valid(M as int, js, i as int),
                shuffled(M as int, js, i as int).len() == M,
                forall|u: int| 0 <= u < M ==> #[trigger] positions@[u] as int == shuffled(M as int, js, i as int)[u],
            decreases weight - i,
        {
            let j = rng.gen_below(i, M);
            let ghost js_old = js;
            proof {
                js = js.push(j as int);
                lemma_shuffled_facts(M as int, js_old, j as int, i as int);
                lemma_shuffled_facts(M as int, js, 0, i as int + 1);
            }
            let ghost before = positions@;
            let pi = positions[i];
            let pj = positions[j];
            positions.set(i, pj);
            positions.set(j, pi);
            proof {
                assert forall|u: int| 0 <= u < M implies #[trigger] positions@[u] as int == shuffled(
                    M as int,
                    js,
                    i as int + 1,
                )[u] by {
                    assert(js[i as int] == j as int);
                    assert(shuffled(M as int, js, i as int) == shuffled(M as int, js_old, i as int));
                }
                assert(rng.drawn() =~= d0 + js);
                assert forall|a: int, b: int|
                    0 <= a < M && 0 <= b < M && a != b implies positions@[a] != positions@[b] by {
                    assert(before[a] != before[b]);
                }
            }
            i = i + 1;
        }
        let chosen = &positions.as_slice()[0..weight];
        proof {
            assert(chosen@.no_duplicates());
            lemma_count_positions(chosen@);
        }
        let r = Self::from_positions(chosen);
        proof {
            assert(draws_since(d0, rng.drawn()) =~= js);
            assert(rng.drawn().take(d0.len() as int) =~= d0);
            let c = shuffle_choice(M as int, js, weight as int);
            assert forall|x: int| 0 <= x < M implies #[trigger] r@[x] == c[x] by {
                if chosen@.contains(x as usize) {
                    let u = choose|u: int| 0 <= u < chosen@.len() && chosen@[u] == x as usize;
                    assert(positions@[u] == chosen@[u]);
                    assert(shuffled(M as int, js, weight as int)[u] == x);
                }
                if c[x] {
                    let u = choose|u: int| 0 <= u < weight && shuffled(M as int, js, weight as int)[u] == x;
                    assert(chosen@[u] == positions@[u]);
                    assert(chosen@.contains(x as usize));
                }
            }
            assert(r@ =~= c);
        }
        r
    }

    /// A polynomial with uniformly random coefficients.
    /// The coefficients are the bits of the `PUBKEY_BYTES` bytes drawn.
    pub fn random_full<R: RandomSource>(rng: &mut R) -> (r: Polynomial)
        ensures
            r@.len() == M,
            extends(old(rng).drawn(), final(rng).drawn()),
            draws_since(old(rng).drawn(), final(rng).drawn()).len() == PUBKEY_BYTES,
            forall|k: int| 0 <= k < PUBKEY_BYTES ==> 0 <= #[trigger] draws_since(old(rng).drawn(), final(rng).drawn())[k] < 256,
            r@ == bytes_to_bits(values_bytes(draws_since(old(rng).drawn(), final(rng).drawn()))),
    {
        let ghost d0 = rng.drawn();
        let mut poly = Polynomial::zero();
        rng.fill_packed(&mut poly.data);
        proof {
            assert(draws_since(d0, rng.drawn()) =~= byte_values(poly.data@));
            assert(rng.drawn().take(d0.len() as int) =~= d0);
            assert(values_bytes(byte_values(poly.data@)) =~= poly.data@);
        }
        let remainder = M % 8;
        if remainder != 0 {
            poly.data[PUBKEY_BYTES - 1] = poly.data[PUBKEY_BYTES - 1] & ((1u8 << remainder as u8)
                - 1);
        }
        poly
    }

    /// Constant-time equality of the packed bytes.
    pub fn ct_bytes_equal(&self, other: &Self) -> (r: bool)
        ensures
            r == (self@ == other@),
    {
        let r = ct_eq_packed(&self.data, &other.data);
        proof {
            if self@ == other@ {
                lemma_bytes_to_bits_injective(self.data@, other.data@);
            }
        }
        r
    }

    /// Mutable access to the packed bytes.
    pub fn as_bytes_mut(&mut self) -> (r: &mut [u8; PUBKEY_BYTES])
        ensures
            r@ == old(self).bytes(),
            final(self).bytes() == final(r)@,
    {
        &mut self.data
    }

    /// The positions of the nonzero coefficients, in increasing order.
    pub fn positions_of_ones(&self) -> (r: Vec<usize>)
        ensures
            r@ == ones_prefix(self@, M as int),
    {
        let mut pos: Vec<usize> = Vec::with_capacity(self.weight());
        let mut byte_idx: usize = 0;
        while byte_idx < PUBKEY_BYTES
            invariant
                byte_idx <= PUBKEY_BYTES,
                pos@ == ones_prefix(self@, 8 * byte_idx as int),
            decreases PUBKEY_BYTES - byte_idx,
        {
            let byte = self.data[byte_idx];
            if byte == 0 {
                proof {
                    assert forall|i: int| 8 * byte_idx <= i < 8 * byte_idx + 8 implies !self@[i] by {
                        assert(i / 8 == byte_idx as int);
                        lemma_bit_zero((i % 8) as u8);
                    }
                    lemma_ones_prefix_skip(self@, 8 * byte_idx as int, 8 * byte_idx + 8);
                }
                byte_idx = byte_idx + 1;
                continue;
            }
            let mut b: usize = 0;
            while b < 8
                invariant
                    byte_idx < PUBKEY_BYTES,
                    b <= 8,
                    byte == self.data@[byte_idx as int],
                    pos@ == ones_prefix(self@, 8 * byte_idx + b),
                ensures
                    pos@ == ones_prefix(self@, 8 * byte_idx + 8),
                decreases 8 - b,
            {
                let p = byte_idx * 8 + b;
                if p >= M {
                    break;
                }
                proof {
                    lemma_bit_value(byte, b as u8);
                    assert(p / 8 == byte_idx as int && p % 8 == b as int);
                }
                if (byte >> (b as u8)) & 1 == 1 {
                    pos.push(p);
                }
                b = b + 1;
            }
            byte_idx = byte_idx + 1;
        }
        pos
    }

    /// Multiplication by `x^shift`.
    pub fn cyclic_shift(&self, shift: usize) -> (r: Polynomial)
        ensures
            r@ == rotate(self@, (shift % M) as int),
    {
        let shift_mod = shift % M;
        if shift_mod == 0 {
            proof {
                assert(self@ =~= rotate(self@, 0));
            }
            return Polynomial { data: self.data };
        }
        let result = cyclic_shift_bytes(&self.data, shift_mod);
        Polynomial { data: result }
    }

    /// Ring multiplication in which every coefficient of `self` is visited and
    /// applied through a mask, so the work does not depend on `self`'s bits.
    pub fn multiply_ct(&self, other: &Self) -> (r: Polynomial)
        ensures
            r@ == ring_mul(self@, other@),
    {
        let mut result = Polynomial::zero();
        let bytes = self.as_bytes();
        let ghost a = self@;
        let ghost b = other@;
        let mut byte_idx: usize = 0;
        while byte_idx < PUBKEY_BYTES
            invariant
                byte_idx <= PUBKEY_BYTES,
                a == self@,
                b == other@,
                bytes@ == self.bytes(),
                result@ == Seq::new(M as nat, |k: int| conv_prefix(a, b, k, 8 * byte_idx as int)),
            decreases PUBKEY_BYTES - byte_idx,
        {
            let byte = bytes[byte_idx];
            let mut bit: usize = 0;
            while bit < 8
                invariant
                    byte_idx < PUBKEY_BYTES,
                    bit <= 8,
                    a == self@,
                    b == other@,
                    byte == self.bytes()[byte_idx as int],
                    result@ == Seq::new(M as nat, |k: int| conv_prefix(a, b, k, 8 * byte_idx + bit)),
                decreases 8 - bit,
            {
                let pos = byte_idx * 8 + bit;
                let in_range = 0u64.wrapping_sub((pos < M) as u64);
                let bit_val = ((byte >> (bit as u8)) & 1) as u64;
                let mask = in_range & 0u64.wrapping_sub(bit_val);
                proof {
                    lemma_bit_value(byte, bit as u8);
                    assert(pos / 8 == byte_idx as int && pos % 8 == bit as int);
                    lemma_mask_select(bit_val);
                }
                let shifted = cyclic_shift_bytes(other.as_bytes(), pos);
                xor_masked_into(&mut result.data, &shifted, mask as u8);
                proof {
                    assert(result@ =~= Seq::new(
                        M as nat,
                        |k: int| conv_prefix(a, b, k, 8 * byte_idx + bit + 1),
                    ));
                }
                bit = bit + 1;
            }
            byte_idx = byte_idx + 1;
        }
        result
    }

    /// Ring multiplication that iterates over the ones of the lighter operand.
    pub fn multiply(&self, other: &Self) -> (r: Polynomial)
        ensures
            r@ == ring_mul(self@, other@),
    {
        let (a, b) = if self.weight() <= other.weight() {
            (self, other)
        } else {
            (other, self)
        };
        let mut result = Polynomial::zero();
        let ones = a.positions_of_ones();
        proof {
            lemma_ones_prefix_shape(a@, M as int);
        }
        let mut t: usize = 0;
        while t < ones.len()
            invariant
                t <= ones@.len(),
                ones@ == ones_prefix(a@, M as int),
                forall|u: int| 0 <= u < ones@.len() ==> #[trigger] ones@[u] < M,
                result@ == Seq::new(M as nat, |k: int| xor_rotations(ones@.take(t as int), b@, k)),
            decreases ones@.len() - t,
        {
            let pos = ones[t];
            let shifted = cyclic_shift_bytes(b.as_bytes(), pos);
            xor_masked_into(&mut result.data, &shifted, 0xFF);
            proof {
                assert(ones@.take(t + 1).drop_last() == ones@.take(t as int));
                assert(result@ =~= Seq::new(
                    M as nat,
                    |k: int| xor_rotations(ones@.take(t + 1), b@, k),
                ));
            }
            t = t + 1;
        }
        proof {
            assert(ones@.take(ones@.len() as int) == ones@);
            assert forall|k: int| 0 <= k < M implies result@[k] == ring_mul(a@, b@)[k] by {
                lemma_conv_prefix_ones(a@, b@, k, M as int);
            }
            assert(result@ =~= ring_mul(a@, b@));
            lemma_ring_mul_commutative(self@, other@);
        }
        result
    }

    /// Same as [`Polynomial::add`].
    pub fn xor(&self, other: &Self) -> (r: Polynomial)
        ensures
            r@.len() == M,
            forall|i: int| 0 <= i < M ==> #[trigger] r@[i] == (self@[i] != other@[i]),
    {
        self.add(other)
    }

    /// The inverse in R, found with the extended Euclidean algorithm against
    /// `x^M - 1`; `None` when the algorithm ends with a gcd other than one,
    /// which happens exactly for the elements of even weight.
    pub fn invert(&self) -> (r: Option<Polynomial>)
        ensures
            r matches Some(inv) ==> ring_mul(self@, inv@) == ring_one(),
            r is Some <==> odd_weight(self@),
    {
        let a = self.to_bit_vec();
        let mut f = vec![0u8; M + 1];
        f.set(0, 1);
        f.set(M, 1);
        proof {
            assert(f@.last() == 1);
            assert forall|j: int| 0 <= j < M implies !#[trigger] red(f@)[j] by {
                lemma_redc_small(pc_fn(f@), M as int, j);
                lemma_mod_self_0(M as int);
            }
            assert(red(f@) =~= ring_zero());
            assert forall|j: int| 0 <= j < M implies red(a@)[j] == self@[j] by {
                lemma_redc_small(pc_fn(a@), M as int, j);
            }
            assert(red(a@) =~= self@);
        }
        let (gcd, u) = ext_gcd_poly(a.as_slice(), f.as_slice());
        if !(gcd.len() == 1 && gcd[0] == 1) {
            return None;
        }
        let inv = reduce_mod_l_final(u.as_slice(), M);
        proof {
            lemma_red_one(gcd@);
            lemma_ring_mul_commutative(self@, inv@);
            self.lemma_view();
            inv.lemma_view();
            lemma_unit_odd_weight(self@, inv@);
        }
        Some(inv)
    }

    /// The M coefficients as a vector of 0/1 bytes.
    fn to_bit_vec(&self) -> (v: Vec<u8>)
        ensures
            v@.len() == M,
            forall|i: int| 0 <= i < M ==> #[trigger] v@[i] == (if self@[i] { 1u8 } else { 0u8 }),
    {
        let mut v = vec![0u8; M];
        for i in 0..M
            invariant
                v@.len() == M,
                forall|j: int| 0 <= j < i ==> #[trigger] v@[j] == (if self@[j] { 1u8 } else { 0u8 }),
        {
            v.set(i, self.get_bit(i));
        }
        v
    }

    /// The polynomial whose coefficients are the first M entries of `bits`
    /// (an entry counts as one when it equals 1).
    fn from_bit_vec_truncated(bits: &[u8]) -> (r: Polynomial)
        ensures
            r@ == Seq::new(M as nat, |i: int| i < bits@.len() && bits@[i] == 1),
    {
        let mut poly = Polynomial::zero();
        let mut i: usize = 0;
        while i < bits.len() && i < M
            invariant
                poly@.len() == M,
                i <= M,
                forall|j: int|
                    0 <= j < M ==> #[trigger] poly@[j] == (j < i && j < bits@.len() && bits@[j] == 1),
            decreases M - i,
        {
            if bits[i] == 1 {
                poly.set_bit(i, 1);
                proof {
                    lemma_byte_facts(0u8, 0u8);
                }
            }
            i = i + 1;
        }
        proof {
            assert(poly@ =~= Seq::new(M as nat, |i: int| i < bits@.len() && bits@[i] == 1));
        }
        poly
    }
}

/// Folds the coefficients of degree `modulus_deg` and above onto their
/// residues, giving the image of `poly` in R.
fn reduce_mod_l_final(poly: &[u8], modulus_deg: usize) -> (r: Polynomial)
    requires
        modulus_deg == M,
        binary(poly@),
    ensures
        r@ == red(poly@),
{
    let mut coeffs = slice_to_vec(poly);
    let len = coeffs.len();
    let mut d = len;
    while d > modulus_deg
        invariant
            modulus_deg == M,
            coeffs@.len() == len,
            d <= len,
            binary(coeffs@),
            red(coeffs@) == red(poly@),
            forall|t: int| d <= t < len && t >= M ==> #[trigger] coeffs@[t] == 0,
        decreases d,
    {
        d = d - 1;
        if coeffs[d] == 1 {
            let t = d % modulus_deg;
            let c = coeffs[t];
            let ghost before = coeffs@;
            coeffs.set(t, c ^ 1);
            coeffs.set(d, 0);
            proof {
                lemma_byte_facts(c, 1u8);
                assert forall|k: int| #[trigger] pc(coeffs@, k) == (pc(before, k) != (k == d as int || k
                    == (d as int) % (M as int))) by {}
                lemma_red_move(before, coeffs@, d as int);
            }
        }
    }
    let ghost folded = coeffs@;
    coeffs.resize(modulus_deg, 0);
    proof {
        assert forall|k: int| #[trigger] pc(coeffs@, k) == pc(folded, k) by {
            if 0 <= k < M && k < len {
                assert(coeffs@[k] == folded[k]);
            }
        }
        lemma_red_same(coeffs@, folded);
        assert forall|j: int| 0 <= j < M implies red(coeffs@)[j] == (j < coeffs@.len() && coeffs@[j]
            == 1) by {
            lemma_redc_small(pc_fn(coeffs@), M as int, j);
        }
    }
    let r = Polynomial::from_bit_vec_truncated(coeffs.as_slice());
    proof {
        assert(r@ =~= red(coeffs@));
    }
    r
}

/// `0 - v` for a bit `v` is all zeros or all ones, and its low byte likewise.
proof fn lemma_mask_select(v: u64)
    requires
        v <= 1,
    ensures
        (0xFFFF_FFFF_FFFF_FFFFu64 & 0u64.wrapping_sub(v)) as u8 == (if v == 1 { 0xFFu8 } else { 0u8 }),
{
    lemma_mask_from_bit(v);
}

/// Xors `x & mask` into `acc`, for a mask of all zeros or all ones.
fn xor_masked_into(acc: &mut [u8; PUBKEY_BYTES], x: &[u8; PUBKEY_BYTES], mask: u8)
    requires
        mask == 0 || mask == 0xFF,
    ensures
        bytes_to_bits(final(acc)@) == Seq::new(
            M as nat,
            |k: int| bytes_to_bits(old(acc)@)[k] != (mask == 0xFF && bytes_to_bits(x@)[k]),
        ),
{
    let mut i: usize = 0;
    while i < PUBKEY_BYTES
        invariant
            mask == 0 || mask == 0xFF,
            i <= PUBKEY_BYTES,
            forall|j: int| 0 <= j < i ==> acc@[j] == old(acc)@[j] ^ (x@[j] & mask),
            forall|j: int| i <= j < PUBKEY_BYTES ==> acc@[j] == old(acc)@[j],
        decreases PUBKEY_BYTES - i,
    {
        acc[i] = acc[i] ^ (x[i] & mask);
        i = i + 1;
    }
    proof {
        let l = bytes_to_bits(acc@);
        let r = Seq::new(
            M as nat,
            |k: int| bytes_to_bits(old(acc)@)[k] != (mask == 0xFF && bytes_to_bits(x@)[k]),
        );
        assert forall|k: int| 0 <= k < M implies l[k] == r[k] by {
            let j = k / 8;
            let b = (k % 8) as u8;
            lemma_bit_xor(old(acc)@[j], x@[j] & mask, b);
            lemma_bit_and(x@[j], mask, b);
            assert(bit(0xFFu8, b)) by {
                lemma_byte_shift(0xFFu8, b);
            }
            lemma_bit_zero(b);
        }
        assert(l =~= r);
    }
}

/// Where bit `b` of output byte `i` of a cyclic shift by `8 * bsh + bs` comes from.
proof fn lemma_shift_source(i: int, bsh: int, bs: int, b: int)
    requires
        0 <= i < PUBKEY_BYTES,
        0 <= bsh < PUBKEY_BYTES,
        0 <= bs < 8,
        0 <= b < 8,
    ensures
        b >= bs ==> sub_mod(8 * i + b, 8 * bsh + bs) == 8 * ((i + PUBKEY_BYTES - bsh) % (
        PUBKEY_BYTES as int)) + b - bs,
        b < bs ==> sub_mod(8 * i + b, 8 * bsh + bs) == 8 * ((i + PUBKEY_BYTES - bsh - 1) % (
        PUBKEY_BYTES as int)) + 8 + b - bs,
{
    let nb = PUBKEY_BYTES as int;
    let m = M as int;
    let t0 = i + nb - bsh;
    let t1 = i + nb - bsh - 1;
    if t0 >= nb {
        lemma_mod_multiples_vanish(1, t0 - nb, nb);
        lemma_small_mod((t0 - nb) as nat, nb as nat);
    } else {
        lemma_small_mod(t0 as nat, nb as nat);
    }
    if t1 >= nb {
        lemma_mod_multiples_vanish(1, t1 - nb, nb);
        lemma_small_mod((t1 - nb) as nat, nb as nat);
    } else {
        lemma_small_mod(t1 as nat, nb as nat);
    }
    let x = 8 * i + b - (8 * bsh + bs);
    if b >= bs {
        let r = 8 * (t0 % nb) + b - bs;
        assert(0 <= r < m);
        if t0 >= nb {
            assert(x == r);
            lemma_small_mod(r as nat, m as nat);
        } else {
            assert(x + m == r);
            lemma_mod_multiples_vanish(-1, r, m);
        }
    } else {
        let r = 8 * (t1 % nb) + 8 + b - bs;
        assert(0 <= r < m);
        if t1 >= nb {
            assert(x == r);
            lemma_small_mod(r as nat, m as nat);
        } else {
            assert(x + m == r);
            lemma_mod_multiples_vanish(-1, r, m);
        }
    }
}

/// The bytes at `t0` and `t1`, read by scanning every byte and selecting
/// with masks, so the memory accesses do not depend on the indices.
fn ct_gather_pair(bytes: &[u8; PUBKEY_BYTES], t0: usize, t1: usize) -> (r: (u8, u8))
    requires
        t0 < PUBKEY_BYTES,
        t1 < PUBKEY_BYTES,
    ensures
        r.0 == bytes@[t0 as int],
        r.1 == bytes@[t1 as int],
{
    let mut v0 = 0u8;
    let mut v1 = 0u8;
    let mut j: usize = 0;
    while j < PUBKEY_BYTES
        invariant
            j <= PUBKEY_BYTES,
            t0 < PUBKEY_BYTES,
            t1 < PUBKEY_BYTES,
            v0 == (if t0 < j { bytes@[t0 as int] } else { 0u8 }),
            v1 == (if t1 < j { bytes@[t1 as int] } else { 0u8 }),
        decreases PUBKEY_BYTES - j,
    {
        let diff0 = (j as u16 ^ t0 as u16).wrapping_sub(1);
        let diff1 = (j as u16 ^ t1 as u16).wrapping_sub(1);
        let m0 = 0u8.wrapping_sub((diff0 >> 15u16) as u8);
        let m1 = 0u8.wrapping_sub((diff1 >> 15u16) as u8);
        let b = bytes[j];
        proof {
            lemma_index_mask(j as u16, t0 as u16, b, v0);
            lemma_index_mask(j as u16, t1 as u16, b, v1);
        }
        v0 = v0 | (b & m0);
        v1 = v1 | (b & m1);
        j = j + 1;
    }
    (v0, v1)
}

/// The mask `0xFF` exactly when `j == t`, from the top bit of `(j ^ t) - 1`,
/// and the or-accumulation of a masked byte.
proof fn lemma_index_mask(j: u16, t: u16, b: u8, v: u8)
    by (bit_vector)
    requires
        j < 0x8000,
        t < 0x8000,
    ensures
        0u8.wrapping_sub((((j ^ t).wrapping_sub(1u16)) >> 15u16) as u8) == (if j == t { 0xFFu8 } else { 0u8 }),
        v | (b & 0xFFu8) == v | b,
        v | (b & 0u8) == v,
        0u8 | b == b,
{
}

/// Cyclic left shift of a packed element by `shift` positions, reading the
/// source bytes through [`ct_gather_pair`]: the memory accesses do not
/// depend on `shift`.
pub fn cyclic_shift_bytes_ct(bytes: &[u8; PUBKEY_BYTES], shift: usize) -> (r: [u8; PUBKEY_BYTES])
    requires
        shift < M,
    ensures
        bytes_to_bits(r@) == rotate(bytes_to_bits(bytes@), shift as int),
{
    let byte_shift = shift / 8;
    let bit_shift = shift % 8;
    let mut result = [0u8; PUBKEY_BYTES];
    let bit_shift_u32 = bit_shift as u32;
    let ghost src = bytes_to_bits(bytes@);
    let mut i: usize = 0;
    while i < PUBKEY_BYTES
        invariant
            i <= PUBKEY_BYTES,
            byte_shift < PUBKEY_BYTES,
            bit_shift < 8,
            bit_shift_u32 == bit_shift,
            shift == 8 * byte_shift + bit_shift,
            src == bytes_to_bits(bytes@),
            forall|j: int, b: u8|
                0 <= j < i && b < 8 ==> #[trigger] bit(result@[j], b) == src[sub_mod(
                    8 * j + b,
                    shift as int,
                )],
        decreases PUBKEY_BYTES - i,
    {
        let s0_target = (i + PUBKEY_BYTES - byte_shift) % PUBKEY_BYTES;
        let s1_target = (i + PUBKEY_BYTES - byte_shift - 1) % PUBKEY_BYTES;
        let (v0, v1) = ct_gather_pair(bytes, s0_target, s1_target);
        let combined = ((v0 as u16) << 8u16) | (v1 as u16);
        let v = ((combined << bit_shift_u32) >> 8u16) as u8;
        result[i] = v;
        proof {
            assert forall|j: int, b: u8|
                0 <= j < i + 1 && b < 8 implies #[trigger] bit(result@[j], b) == src[sub_mod(
                8 * j + b,
                shift as int,
            )] by {
                if j == i {
                    lemma_bit_funnel(v0, v1, bit_shift_u32, b);
                    lemma_shift_source(i as int, byte_shift as int, bit_shift as int, b as int);
                    if b as u32 >= bit_shift_u32 {
                        let g = 8 * s0_target + b - bit_shift;
                        assert(g / 8 == s0_target as int && g % 8 == b - bit_shift);
                    } else {
                        let g = 8 * s1_target + 8 + b - bit_shift;
                        assert(g / 8 == s1_target as int && g % 8 == 8 + b - bit_shift);
                    }
                }
            }
        }
        i = i + 1;
    }
    let remainder = M % 8;
    if remainder != 0 {
        result[PUBKEY_BYTES - 1] = result[PUBKEY_BYTES - 1] & ((1u8 << remainder as u8) - 1);
    }
    proof {
        let r = bytes_to_bits(result@);
        let t = rotate(src, shift as int);
        assert forall|g: int| 0 <= g < M implies r[g] == t[g] by {
            let j = g / 8;
            let b = (g % 8) as u8;
            assert(bit(result@[j], b) == src[sub_mod(8 * j + b, shift as int)]);
            assert(8 * j + b == g);
        }
        assert(r =~= t);
    }
    result
}

/// Cyclic left shift of a packed element by `shift` coefficient positions
/// (multiplication by `x^shift`).
fn cyclic_shift_bytes(bytes: &[u8; PUBKEY_BYTES], shift: usize) -> (r: [u8; PUBKEY_BYTES])
    requires
        shift < M,
    ensures
        bytes_to_bits(r@) == rotate(bytes_to_bits(bytes@), shift as int),
{
    let byte_shift = shift / 8;
    let bit_shift = shift % 8;
    let mut result = [0u8; PUBKEY_BYTES];
    let bit_shift_u32 = bit_shift as u32;
    let ghost src = bytes_to_bits(bytes@);
    let mut i: usize = 0;
    while i < PUBKEY_BYTES
        invariant
            i <= PUBKEY_BYTES,
            byte_shift < PUBKEY_BYTES,
            bit_shift < 8,
            bit_shift_u32 == bit_shift,
            shift == 8 * byte_shift + bit_shift,
            src == bytes_to_bits(bytes@),
            forall|j: int, b: u8|
                0 <= j < i && b < 8 ==> #[trigger] bit(result@[j], b) == src[sub_mod(
                    8 * j + b,
                    shift as int,
                )],
        decreases PUBKEY_BYTES - i,
    {
        let s0 = (i + PUBKEY_BYTES - byte_shift) % PUBKEY_BYTES;
        let s1 = (i + PUBKEY_BYTES - byte_shift - 1) % PUBKEY_BYTES;
        let combined = ((bytes[s0] as u16) << 8u16) | (bytes[s1] as u16);
        let v = ((combined << bit_shift_u32) >> 8u16) as u8;
        result[i] = v;
        proof {
            assert forall|j: int, b: u8|
                0 <= j < i + 1 && b < 8 implies #[trigger] bit(result@[j], b) == src[sub_mod(
                8 * j + b,
                shift as int,
            )] by {
                if j == i {
                    lemma_bit_funnel(bytes@[s0 as int], bytes@[s1 as int], bit_shift_u32, b);
                    lemma_shift_source(i as int, byte_shift as int, bit_shift as int, b as int);
                    if b as u32 >= bit_shift_u32 {
                        let g = 8 * s0 + b - bit_shift;
                        assert(g / 8 == s0 as int && g % 8 == b - bit_shift);
                    } else {
                        let g = 8 * s1 + 8 + b - bit_shift;
                        assert(g / 8 == s1 as int && g % 8 == 8 + b - bit_shift);
                    }
                }
            }
        }
        i = i + 1;
    }
    let remainder = M % 8;
    if remainder != 0 {
        result[PUBKEY_BYTES - 1] = result[PUBKEY_BYTES - 1] & ((1u8 << remainder as u8) - 1);
    }
    proof {
        let r = bytes_to_bits(result@);
        let t = rotate(src, shift as int);
        assert forall|g: int| 0 <= g < M implies r[g] == t[g] by {
            let j = g / 8;
            let b = (g % 8) as u8;
            assert(bit(result@[j], b) == src[sub_mod(8 * j + b, shift as int)]);
            assert(8 * j + b == g);
        }
        assert(r =~= t);
    }
    result
}

} // verus!

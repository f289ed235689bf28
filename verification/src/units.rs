//! Units of R = GF(2)[x] / (x^M - 1). Since M is a power of two,
//! `x^M - 1 = (1 + x)^M`, so `1 + x` is nilpotent and every element of odd
//! weight, being `1 + u` with `u` a multiple of `1 + x`, is invertible.

use vstd::prelude::*;
use vstd::arithmetic::div_mod::{lemma_fundamental_div_mod_converse_mod, lemma_small_mod};
use crate::bits::count_true;
use crate::parameters::M;
use crate::ring::{
    lemma_count_xor, lemma_ring_mul_associative, lemma_ring_mul_commutative,
    lemma_ring_mul_distributes, lemma_ring_mul_monomial, lemma_ring_mul_one, lemma_ring_mul_zero,
    lemma_unit_odd_weight, monomial, odd_weight, ring_add, ring_mul, ring_one, ring_zero, rotate,
    sub_mod,
};

verus! {

/// `log2(M)`: the number of squarings that take `1 + x` to zero.
pub const LOG_M: usize = 14;

/// `2^j`.
pub open spec fn pow2_nat(j: nat) -> nat
    decreases j,
{
    if j == 0 {
        1
    } else {
        2 * pow2_nat((j - 1) as nat)
    }
}

/// Squaring in R.
pub open spec fn ring_sq(a: Seq<bool>) -> Seq<bool> {
    ring_mul(a, a)
}

/// `a^(2^j)`, by `j` squarings.
pub open spec fn sq_iter(a: Seq<bool>, j: nat) -> Seq<bool>
    decreases j,
{
    if j == 0 {
        a
    } else {
        ring_sq(sq_iter(a, (j - 1) as nat))
    }
}

/// The product `(1 + u)(1 + u^2)(1 + u^4) ... (1 + u^(2^(j-1)))`.
pub open spec fn geo(u: Seq<bool>, j: nat) -> Seq<bool>
    decreases j,
{
    if j == 0 {
        ring_one()
    } else {
        ring_mul(geo(u, (j - 1) as nat), ring_add(ring_one(), sq_iter(u, (j - 1) as nat)))
    }
}

/// The inverse of an element of odd weight `a = 1 + u`: the product
/// `(1 + u)(1 + u^2) ... (1 + u^(M/2))`.
pub open spec fn ring_inverse(a: Seq<bool>) -> Seq<bool> {
    geo(ring_add(a, ring_one()), LOG_M as nat)
}

/// `z + z == 0`.
proof fn lemma_add_self(z: Seq<bool>)
    ensures
        ring_add(z, z) == ring_zero(),
{
    assert(ring_add(z, z) =~= ring_zero());
}

/// Squaring is additive (the characteristic is two).
pub proof fn lemma_sq_add(a: Seq<bool>, b: Seq<bool>)
    requires
        a.len() == M,
        b.len() == M,
    ensures
        ring_sq(ring_add(a, b)) == ring_add(ring_sq(a), ring_sq(b)),
{
    let s = ring_add(a, b);
    lemma_ring_mul_distributes(a, b, s);
    lemma_ring_mul_commutative(a, s);
    lemma_ring_mul_commutative(b, s);
    lemma_ring_mul_distributes(a, b, a);
    lemma_ring_mul_distributes(a, b, b);
    lemma_ring_mul_commutative(a, b);
    assert(ring_sq(s) =~= ring_add(ring_sq(a), ring_sq(b)));
}

/// Squaring is multiplicative (the ring is commutative).
pub proof fn lemma_sq_mul(a: Seq<bool>, b: Seq<bool>)
    requires
        a.len() == M,
        b.len() == M,
    ensures
        ring_sq(ring_mul(a, b)) == ring_mul(ring_sq(a), ring_sq(b)),
{
    let ab = ring_mul(a, b);
    // (ab)(ab) = a(b(ab)) = a((ba)b) = a((ab)b) = a(a(bb)) = (aa)(bb)
    lemma_ring_mul_associative(a, b, ab);
    lemma_ring_mul_associative(b, a, b);
    lemma_ring_mul_commutative(b, a);
    lemma_ring_mul_associative(a, b, b);
    lemma_ring_mul_commutative(b, ab);
    lemma_ring_mul_associative(a, a, ring_mul(b, b));
}

/// Every power has M coefficients.
pub proof fn lemma_sq_iter_len(a: Seq<bool>, j: nat)
    requires
        a.len() == M,
    ensures
        sq_iter(a, j).len() == M,
    decreases j,
{
    if j > 0 {
        lemma_sq_iter_len(a, (j - 1) as nat);
    }
}

/// `(ab)^(2^j) == a^(2^j) b^(2^j)`.
pub proof fn lemma_sq_iter_mul(a: Seq<bool>, b: Seq<bool>, j: nat)
    requires
        a.len() == M,
        b.len() == M,
    ensures
        sq_iter(ring_mul(a, b), j) == ring_mul(sq_iter(a, j), sq_iter(b, j)),
    decreases j,
{
    if j > 0 {
        let p = (j - 1) as nat;
        lemma_sq_iter_mul(a, b, p);
        lemma_sq_iter_len(a, p);
        lemma_sq_iter_len(b, p);
        lemma_sq_mul(sq_iter(a, p), sq_iter(b, p));
    }
}

/// `(x^s)^2 == x^(2s)`, where `x^M == 1`.
proof fn lemma_sq_monomial(s: int)
    requires
        0 <= s,
        2 * s <= M,
    ensures
        ring_sq(monomial(s)) == monomial(if 2 * s < M { 2 * s } else { 0 }),
{
    let m = M as int;
    let t = if 2 * s < m { 2 * s } else { 0 };
    lemma_ring_mul_monomial(s, monomial(s));
    assert forall|i: int| 0 <= i < m implies rotate(monomial(s), s)[i] == monomial(t)[i] by {
        if i >= s {
            lemma_small_mod((i - s) as nat, m as nat);
        } else {
            lemma_fundamental_div_mod_converse_mod(i - s, m, -1, i - s + m);
        }
    }
    assert(rotate(monomial(s), s) =~= monomial(t));
}

/// `2^j <= 2^13 == M / 2` for `j <= 13`.
proof fn lemma_pow2_bound(j: nat)
    requires
        j <= 13,
    ensures
        pow2_nat(j) <= 8192,
        j == 13 ==> pow2_nat(j) == 8192,
    decreases 13 - j,
{
    if j == 13 {
        reveal_with_fuel(pow2_nat, 14);
        assert(pow2_nat(13) == 8192);
    } else {
        lemma_pow2_bound(j + 1);
    }
}

/// `1 + x`.
pub open spec fn one_plus_x() -> Seq<bool> {
    ring_add(ring_one(), monomial(1))
}

/// `(1 + x)^(2^j) == 1 + x^(2^j)` for `j <= 13`.
proof fn lemma_binomial_iter(j: nat)
    requires
        j <= 13,
    ensures
        sq_iter(one_plus_x(), j) == ring_add(ring_one(), monomial(pow2_nat(j) as int)),
    decreases j,
{
    if j > 0 {
        let p = (j - 1) as nat;
        lemma_binomial_iter(p);
        lemma_pow2_bound(j);
        let e = pow2_nat(p) as int;
        lemma_sq_add(ring_one(), monomial(e));
        lemma_ring_mul_one(ring_one());
        lemma_sq_monomial(e);
    }
}

/// `(1 + x)^M == 1 + x^M == 0`: `1 + x` is nilpotent.
pub proof fn lemma_one_plus_x_nilpotent()
    ensures
        sq_iter(one_plus_x(), LOG_M as nat) == ring_zero(),
{
    lemma_binomial_iter(13);
    lemma_pow2_bound(13);
    lemma_sq_add(ring_one(), monomial(8192));
    lemma_ring_mul_one(ring_one());
    lemma_sq_monomial(8192);
    assert(monomial(0) =~= ring_one());
    lemma_add_self(ring_one());
}

/// Coefficient `k` is the parity of `e[0..=k]`.
pub open spec fn prefix_parity(e: Seq<bool>) -> Seq<bool> {
    Seq::new(M as nat, |k: int| count_true(e.take(k + 1)) % 2 == 1)
}

/// An element of even weight is a multiple of `1 + x`:
/// `(1 + x) * prefix_parity(e) == e`.
pub proof fn lemma_even_multiple(e: Seq<bool>)
    requires
        e.len() == M,
        !odd_weight(e),
    ensures
        ring_mul(one_plus_x(), prefix_parity(e)) == e,
{
    let m = M as int;
    let c = prefix_parity(e);
    lemma_ring_mul_distributes(ring_one(), monomial(1), c);
    lemma_ring_mul_one(c);
    lemma_ring_mul_monomial(1, c);
    assert forall|k: int| 0 <= k < m implies #[trigger] ring_add(c, rotate(c, 1))[k] == e[k] by {
        let t = e.take(k + 1);
        assert(t.drop_last() =~= e.take(k));
        assert(t.last() == e[k]);
        assert(count_true(t) == count_true(e.take(k)) + (if e[k] { 1nat } else { 0nat }));
        assert(c[k] == (count_true(t) % 2 == 1));
        if k >= 1 {
            lemma_small_mod((k - 1) as nat, m as nat);
        } else {
            lemma_fundamental_div_mod_converse_mod(-1, m, -1, m - 1);
            assert(e.take(m) =~= e);
            assert(e.take(0) =~= Seq::<bool>::empty());
        }
    }
    assert(ring_add(c, rotate(c, 1)) =~= e);
}

/// `(1 + u) * (1 + u)(1 + u^2) ... (1 + u^(2^(j-1))) == 1 + u^(2^j)`.
proof fn lemma_geo(u: Seq<bool>, j: nat)
    requires
        u.len() == M,
    ensures
        ring_mul(ring_add(ring_one(), u), geo(u, j)) == ring_add(ring_one(), sq_iter(u, j)),
    decreases j,
{
    let a1 = ring_add(ring_one(), u);
    if j == 0 {
        lemma_ring_mul_one(a1);
    } else {
        let p = (j - 1) as nat;
        lemma_geo(u, p);
        let z = sq_iter(u, p);
        let w = ring_add(ring_one(), z);
        lemma_ring_mul_associative(a1, geo(u, p), w);
        lemma_sq_iter_len(u, p);
        lemma_sq_add(ring_one(), z);
        lemma_ring_mul_one(ring_one());
    }
}

/// Every element of odd weight is a unit, with inverse [`ring_inverse`].
pub proof fn lemma_odd_weight_unit(a: Seq<bool>)
    requires
        a.len() == M,
        odd_weight(a),
    ensures
        ring_inverse(a).len() == M,
        ring_mul(a, ring_inverse(a)) == ring_one(),
{
    let one = ring_one();
    let u = ring_add(a, one);
    // u = a + 1 has even weight.
    lemma_ring_mul_one(one);
    lemma_unit_odd_weight(one, one);
    assert(u =~= Seq::new(a.len(), |i: int| a[i] != one[i]));
    lemma_count_xor(a, one);
    // u = (1 + x) c, so u^M = (1 + x)^M c^M = 0.
    lemma_even_multiple(u);
    let c = prefix_parity(u);
    lemma_sq_iter_mul(one_plus_x(), c, LOG_M as nat);
    lemma_one_plus_x_nilpotent();
    lemma_ring_mul_zero(sq_iter(c, LOG_M as nat));
    // (1 + u) (1 + u)(1 + u^2) ... (1 + u^(M/2)) = 1 + u^M = 1.
    lemma_geo(u, LOG_M as nat);
    assert(ring_add(one, u) =~= a);
    assert(ring_add(one, ring_zero()) =~= one);
}

/// An element is a unit exactly when its weight is odd.
pub proof fn lemma_unit_iff_odd_weight(a: Seq<bool>)
    requires
        a.len() == M,
    ensures
        odd_weight(a) <==> exists|b: Seq<bool>| b.len() == M && #[trigger] ring_mul(a, b) == ring_one(),
{
    if odd_weight(a) {
        lemma_odd_weight_unit(a);
        let b = ring_inverse(a);
        assert(b.len() == M && ring_mul(a, b) == ring_one());
    }
    if exists|b: Seq<bool>| b.len() == M && #[trigger] ring_mul(a, b) == ring_one() {
        let b = choose|b: Seq<bool>| b.len() == M && #[trigger] ring_mul(a, b) == ring_one();
        lemma_unit_odd_weight(a, b);
    }
}

} // verus!

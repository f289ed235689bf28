//! Polynomials over GF(2) of unbounded degree, stored as coefficient vectors
//! (one byte per coefficient, 0 or 1, lowest degree first), with the
//! extended Euclidean algorithm used to invert elements of R.

use vstd::prelude::*;
use vstd::arithmetic::div_mod::{lemma_mod_bound, lemma_mod_equivalence, lemma_small_mod, lemma_sub_mod_noop_right};
use crate::parameters::M;
use crate::ring::{
    lemma_ring_mul_associative, lemma_ring_mul_distributes, lemma_ring_mul_monomial,
    lemma_ring_mul_one, lemma_ring_mul_zero, monomial, odd_weight, ring_add, ring_mul, ring_one, ring_zero,
    rotate, sub_mod,
};
use vstd::slice::slice_to_vec;
use crate::bits::lemma_byte_facts;
use crate::units::{lemma_odd_weight_unit, ring_inverse};

verus! {

/// Coefficient `i` of a coefficient vector: entry `i` is 1 (false outside the vector).
pub open spec fn pc(p: Seq<u8>, i: int) -> bool {
    0 <= i < p.len() && p[i] == 1
}

/// Every entry is 0 or 1.
pub open spec fn binary(p: Seq<u8>) -> bool {
    forall|i: int| 0 <= i < p.len() ==> #[trigger] p[i] <= 1
}

/// The two vectors denote the same polynomial.
pub open spec fn same_poly(a: Seq<u8>, b: Seq<u8>) -> bool {
    forall|i: int| #[trigger] pc(a, i) == pc(b, i)
}

/// The vector denotes the zero polynomial.
pub open spec fn zero_poly(p: Seq<u8>) -> bool {
    forall|i: int| !#[trigger] pc(p, i)
}

/// Canonical form: `[0]` for zero, otherwise no trailing zero entry.
pub open spec fn trimmed(p: Seq<u8>) -> bool {
    &&& p.len() >= 1
    &&& binary(p)
    &&& (p.last() == 1 || p =~= seq![0u8])
}

/// Coefficient `k` of `a * b`, summing only the terms `a_i` with `i < n`.
pub open spec fn pmul_prefix(a: Seq<u8>, b: Seq<u8>, k: int, n: int) -> bool
    decreases n,
{
    if n <= 0 {
        false
    } else {
        pmul_prefix(a, b, k, n - 1) != (pc(a, n - 1) && pc(b, k - (n - 1)))
    }
}

/// Coefficient `k` of the product `a * b` in GF(2)[x].
pub open spec fn pmul(a: Seq<u8>, b: Seq<u8>, k: int) -> bool {
    pmul_prefix(a, b, k, a.len() as int)
}

// ---------------------------------------------------------------------------
// Facts about the product

/// The partial product vanishes outside `[0, n - 1 + b.len())`.
pub proof fn lemma_pmul_prefix_support(a: Seq<u8>, b: Seq<u8>, k: int, n: int)
    requires
        k < 0 || k >= n - 1 + b.len(),
    ensures
        !pmul_prefix(a, b, k, n),
    decreases n,
{
    if n > 0 {
        lemma_pmul_prefix_support(a, b, k, n - 1);
    }
}

/// A zero factor gives a zero product.
pub proof fn lemma_pmul_prefix_zero(a: Seq<u8>, b: Seq<u8>, k: int, n: int)
    requires
        zero_poly(a) || zero_poly(b),
    ensures
        !pmul_prefix(a, b, k, n),
    decreases n,
{
    if n > 0 {
        lemma_pmul_prefix_zero(a, b, k, n - 1);
        assert(!pc(a, n - 1) || !pc(b, k - (n - 1)));
    }
}

/// Setting a zero coefficient `s` of `q` to one adds `x^s * b` to the product.
pub proof fn lemma_pmul_prefix_toggle(q: Seq<u8>, b: Seq<u8>, s: int, k: int, n: int)
    requires
        0 <= s < q.len(),
        q[s] == 0,
    ensures
        pmul_prefix(q.update(s, 1u8), b, k, n) == (pmul_prefix(q, b, k, n) != (s < n && pc(b, k - s))),
    decreases n,
{
    if n > 0 {
        lemma_pmul_prefix_toggle(q, b, s, k, n - 1);
    }
}

// ---------------------------------------------------------------------------
// Reduction modulo x^M - 1

/// The coefficients of a vector, as a predicate on degrees.
pub open spec fn pc_fn(p: Seq<u8>) -> spec_fn(int) -> bool {
    |i: int| pc(p, i)
}

/// Pointwise exclusive or of two coefficient predicates.
pub open spec fn xor_fn(c: spec_fn(int) -> bool, d: spec_fn(int) -> bool) -> spec_fn(int) -> bool {
    |i: int| c(i) != d(i)
}

/// The coefficients of a partial product, as a predicate on degrees.
pub open spec fn pmul_fn(a: Seq<u8>, b: Seq<u8>, n: int) -> spec_fn(int) -> bool {
    |k: int| pmul_prefix(a, b, k, n)
}

/// The coefficients of `a_n x^n * b`.
pub open spec fn term_fn(a: Seq<u8>, b: Seq<u8>, n: int) -> spec_fn(int) -> bool {
    |k: int| pc(a, n) && pc(b, k - n)
}

/// Parity of the coefficients `c(i)`, `0 <= i < n`, with `i == j (mod M)`.
pub open spec fn redc(c: spec_fn(int) -> bool, n: int, j: int) -> bool
    decreases n,
{
    if n <= 0 {
        false
    } else {
        redc(c, n - 1, j) != (c(n - 1) && (n - 1) % (M as int) == j)
    }
}

/// The image in R of the polynomial with coefficients `c(i)`, `0 <= i < n`.
pub open spec fn red_fn(c: spec_fn(int) -> bool, n: int) -> Seq<bool> {
    Seq::new(M as nat, |j: int| redc(c, n, j))
}

/// The image in R (reduction modulo `x^M - 1`) of a coefficient vector.
pub open spec fn red(p: Seq<u8>) -> Seq<bool> {
    red_fn(pc_fn(p), p.len() as int)
}

/// Coefficients that are all false between `n` and `n2` add nothing.
pub proof fn lemma_redc_support(c: spec_fn(int) -> bool, n: int, n2: int, j: int)
    requires
        n <= n2,
        forall|i: int| n <= i < n2 ==> !#[trigger] c(i),
    ensures
        redc(c, n2, j) == redc(c, n, j),
    decreases n2 - n,
{
    if n2 > n {
        lemma_redc_support(c, n, n2 - 1, j);
        if n2 - 1 < 0 {
            assert(redc(c, n2, j) == false);
            assert(redc(c, n, j) == false);
        }
    }
}

/// The reduction depends only on the coefficients below the bound.
pub proof fn lemma_redc_ext(c: spec_fn(int) -> bool, d: spec_fn(int) -> bool, n: int, j: int)
    requires
        forall|i: int| 0 <= i < n ==> #[trigger] c(i) == d(i),
    ensures
        redc(c, n, j) == redc(d, n, j),
    decreases n,
{
    if n > 0 {
        lemma_redc_ext(c, d, n - 1, j);
    }
}

/// The reduction is linear.
pub proof fn lemma_redc_xor(c: spec_fn(int) -> bool, d: spec_fn(int) -> bool, n: int, j: int)
    ensures
        redc(xor_fn(c, d), n, j) == (redc(c, n, j) != redc(d, n, j)),
    decreases n,
{
    if n > 0 {
        lemma_redc_xor(c, d, n - 1, j);
    }
}

/// Below degree M nothing wraps around.
pub proof fn lemma_redc_small(c: spec_fn(int) -> bool, n: int, j: int)
    requires
        0 <= n <= M,
        0 <= j < M,
    ensures
        redc(c, n, j) == (j < n && c(j)),
    decreases n,
{
    if n > 0 {
        lemma_redc_small(c, n - 1, j);
        lemma_small_mod((n - 1) as nat, M as nat);
    }
}

/// `(x + s) mod M == j` exactly when `x mod M == (j - s) mod M`.
proof fn lemma_mod_shift_eq(x: int, s: int, j: int)
    requires
        0 <= j < M,
    ensures
        ((x + s) % (M as int) == j) == (x % (M as int) == sub_mod(j, s)),
{
    let m = M as int;
    lemma_small_mod(j as nat, m as nat);
    lemma_mod_equivalence(x + s, j, m);
    lemma_mod_equivalence(x, j - s, m);
    assert(x + s - j == x - (j - s));
}

/// Shifting the coefficients up by `s` rotates the reduction by `s`.
pub proof fn lemma_redc_shift(c: spec_fn(int) -> bool, d: spec_fn(int) -> bool, s: int, n: int, j: int)
    requires
        s >= 0,
        n >= 0,
        0 <= j < M,
        forall|i: int| i < 0 ==> !#[trigger] c(i),
        forall|k: int| #[trigger] d(k) == c(k - s),
    ensures
        redc(d, n + s, j) == redc(c, n, sub_mod(j, s)),
    decreases n,
{
    if n == 0 {
        lemma_redc_support(d, 0, s, j);
    } else {
        lemma_redc_shift(c, d, s, n - 1, j);
        lemma_mod_shift_eq(n - 1, s, j);
        assert(d(n - 1 + s) == c(n - 1));
    }
}

/// The reduction of a product is the product of the reductions (partial products).
proof fn lemma_red_pmul_prefix(a: Seq<u8>, b: Seq<u8>, n: int)
    requires
        n >= 0,
    ensures
        red_fn(pmul_fn(a, b, n), n + b.len()) == ring_mul(red_fn(pc_fn(a), n), red(b)),
    decreases n,
{
    let lb = b.len() as int;
    let bb = red(b);
    if n == 0 {
        assert forall|j: int| 0 <= j < M implies !redc(pmul_fn(a, b, 0), lb, j) by {
            lemma_redc_support(pmul_fn(a, b, 0), 0, lb, j);
        }
        assert(red_fn(pmul_fn(a, b, 0), lb) =~= ring_zero());
        assert(red_fn(pc_fn(a), 0) =~= ring_zero());
        lemma_ring_mul_zero(bb);
    } else {
        let p = n - 1;
        lemma_red_pmul_prefix(a, b, p);
        let g = pmul_fn(a, b, p);
        let g1 = pmul_fn(a, b, n);
        let h = term_fn(a, b, p);
        let t = if pc(a, p) {
            rotate(bb, p)
        } else {
            ring_zero()
        };
        // Left side: one more term of the product.
        assert forall|j: int| 0 <= j < M implies redc(g1, n + lb, j) == (redc(g, p + lb, j) != t[j]) by {
            assert forall|k: int| 0 <= k < n + lb implies #[trigger] g1(k) == xor_fn(g, h)(k) by {}
            lemma_redc_ext(g1, xor_fn(g, h), n + lb, j);
            lemma_redc_xor(g, h, n + lb, j);
            assert forall|k: int| p + lb <= k < n + lb implies !#[trigger] g(k) by {
                lemma_pmul_prefix_support(a, b, k, p);
            }
            lemma_redc_support(g, p + lb, n + lb, j);
            if pc(a, p) {
                let pb = pc_fn(b);
                assert forall|k: int| #[trigger] h(k) == pb(k - p) by {}
                lemma_redc_support(h, p + lb, n + lb, j);
                lemma_redc_shift(pb, h, p, lb, j);
            } else {
                lemma_redc_support(h, 0, n + lb, j);
            }
        }
        assert(red_fn(g1, n + lb) =~= ring_add(red_fn(g, p + lb), t));
        // Right side: one more term of the first factor.
        let x = red_fn(pc_fn(a), p);
        let e = if pc(a, p) {
            monomial(p % (M as int))
        } else {
            ring_zero()
        };
        lemma_mod_bound(p, M as int);
        assert(red_fn(pc_fn(a), n) =~= ring_add(x, e));
        lemma_ring_mul_distributes(x, e, bb);
        if pc(a, p) {
            lemma_ring_mul_monomial(p % (M as int), bb);
            assert forall|i: int| 0 <= i < M implies rotate(bb, p % (M as int))[i] == rotate(bb, p)[i] by {
                lemma_sub_mod_noop_right(i, p, M as int);
            }
            assert(rotate(bb, p % (M as int)) =~= rotate(bb, p));
        } else {
            lemma_ring_mul_zero(bb);
        }
    }
}

/// A vector holding the product of `a` and `b` reduces to the product of the reductions.
pub proof fn lemma_red_product(r: Seq<u8>, a: Seq<u8>, b: Seq<u8>)
    requires
        forall|k: int| #[trigger] pc(r, k) == pmul(a, b, k),
        r.len() <= a.len() + b.len(),
    ensures
        red(r) == ring_mul(red(a), red(b)),
{
    let n = (a.len() + b.len()) as int;
    lemma_red_pmul_prefix(a, b, a.len() as int);
    assert forall|j: int| 0 <= j < M implies red(r)[j] == red_fn(pmul_fn(a, b, a.len() as int), n)[j] by {
        lemma_redc_support(pc_fn(r), r.len() as int, n, j);
        assert forall|k: int| 0 <= k < n implies #[trigger] pc_fn(r)(k) == pmul_fn(a, b, a.len() as int)(k) by {
            assert(pc(r, k) == pmul(a, b, k));
        }
        lemma_redc_ext(pc_fn(r), pmul_fn(a, b, a.len() as int), n, j);
    }
    assert(red(r) =~= red_fn(pmul_fn(a, b, a.len() as int), n));
}

/// A vector that differs from `y` by the coefficients `g` (zero from `ng` on)
/// reduces to the sum of the reductions.
pub proof fn lemma_red_xor(x: Seq<u8>, y: Seq<u8>, g: spec_fn(int) -> bool, ng: int)
    requires
        ng >= 0,
        forall|k: int| #[trigger] pc(x, k) == (pc(y, k) != g(k)),
        forall|k: int| k >= ng ==> !#[trigger] g(k),
    ensures
        red(x) == ring_add(red(y), red_fn(g, ng)),
{
    let n0 = if x.len() >= y.len() { x.len() as int } else { y.len() as int };
    let n = if n0 >= ng { n0 } else { ng };
    assert forall|j: int| 0 <= j < M implies red(x)[j] == ring_add(red(y), red_fn(g, ng))[j] by {
        lemma_redc_support(pc_fn(x), x.len() as int, n, j);
        lemma_redc_support(pc_fn(y), y.len() as int, n, j);
        lemma_redc_support(g, ng, n, j);
        assert forall|k: int| 0 <= k < n implies #[trigger] pc_fn(x)(k) == xor_fn(pc_fn(y), g)(k) by {
            assert(pc(x, k) == (pc(y, k) != g(k)));
        }
        lemma_redc_ext(pc_fn(x), xor_fn(pc_fn(y), g), n, j);
        lemma_redc_xor(pc_fn(y), g, n, j);
    }
    assert(red(x) =~= ring_add(red(y), red_fn(g, ng)));
}

/// Vectors denoting the same polynomial reduce alike.
pub proof fn lemma_red_same(x: Seq<u8>, y: Seq<u8>)
    requires
        same_poly(x, y),
    ensures
        red(x) == red(y),
{
    let g = |k: int| false;
    assert forall|k: int| #[trigger] pc(x, k) == (pc(y, k) != g(k)) by {
        assert(pc(x, k) == pc(y, k));
    }
    lemma_red_xor(x, y, g, 0);
    assert(red_fn(g, 0) =~= ring_zero());
    assert(ring_add(red(y), ring_zero()) =~= red(y));
}

/// Canonical form of a coefficient vector.
pub fn trim(p: &[u8]) -> (r: Vec<u8>)
    requires
        binary(p@),
    ensures
        same_poly(r@, p@),
        trimmed(r@),
        r@.len() <= p@.len() || r@.len() == 1,
        zero_poly(p@) <==> r@ =~= seq![0u8],
{
    let mut end = p.len();
    while end > 0 && p[end - 1] == 0
        invariant
            end <= p@.len(),
            forall|i: int| end <= i < p@.len() ==> p@[i] == 0,
        decreases end,
    {
        end = end - 1;
    }
    if end == 0 {
        let r = vec![0u8];
        proof {
            assert forall|i: int| #[trigger] pc(r@, i) == pc(p@, i) by {
                if 0 <= i < p@.len() {
                    assert(p@[i] == 0);
                }
            }
            assert(r@ =~= seq![0u8]);
        }
        r
    } else {
        let mut r: Vec<u8> = Vec::new();
        let mut i: usize = 0;
        while i < end
            invariant
                i <= end <= p@.len(),
                r@ =~= p@.take(i as int),
            decreases end - i,
        {
            r.push(p[i]);
            i = i + 1;
        }
        proof {
            assert(r@ =~= p@.take(end as int));
            assert(p@[end - 1] != 0);
            assert(r@.last() == 1);
            assert forall|j: int| #[trigger] pc(r@, j) == pc(p@, j) by {
                if end <= j < p@.len() {
                    assert(p@[j] == 0);
                }
            }
            if zero_poly(p@) {
                assert(!pc(p@, end - 1));
            }
            if r@ =~= seq![0u8] {
                assert(r@[0] == 0);
            }
        }
        r
    }
}

/// True when every entry is zero.
pub fn is_zero_poly(p: &[u8]) -> (r: bool)
    ensures
        r == (forall|i: int| 0 <= i < p@.len() ==> p@[i] == 0),
        binary(p@) ==> (r == zero_poly(p@)),
{
    let mut i: usize = 0;
    while i < p.len()
        invariant
            i <= p@.len(),
            forall|j: int| 0 <= j < i ==> p@[j] == 0,
        decreases p@.len() - i,
    {
        if p[i] != 0 {
            proof {
                if binary(p@) {
                    assert(pc(p@, i as int));
                }
            }
            return false;
        }
        i = i + 1;
    }
    true
}

/// Number of entries up to the last nonzero one.
pub fn sig_len(p: &[u8]) -> (n: usize)
    ensures
        n <= p@.len(),
        forall|i: int| n <= i < p@.len() ==> #[trigger] p@[i] == 0,
        n > 0 ==> p@[n - 1] != 0,
{
    let mut end = p.len();
    while end > 0 && p[end - 1] == 0
        invariant
            end <= p@.len(),
            forall|i: int| end <= i < p@.len() ==> #[trigger] p@[i] == 0,
        decreases end,
    {
        end = end - 1;
    }
    end
}

/// Cuts a vector to its significant length (to `[0]` when it is zero).
fn trim_in_place(mut v: Vec<u8>) -> (r: Vec<u8>)
    requires
        binary(v@),
    ensures
        same_poly(r@, v@),
        trimmed(r@),
        r@.len() <= v@.len() || r@.len() == 1,
{
    let n = sig_len(v.as_slice());
    if n == 0 {
        let z = vec![0u8];
        proof {
            assert(z@ =~= seq![0u8]);
            assert forall|i: int| #[trigger] pc(z@, i) == pc(v@, i) by {
                if 0 <= i < v@.len() {
                    assert(v@[i] == 0);
                }
            }
        }
        return z;
    }
    let ghost before = v@;
    v.truncate(n);
    proof {
        assert(v@ =~= before.take(n as int));
        assert(v@.last() == 1);
        assert forall|i: int| #[trigger] pc(v@, i) == pc(before, i) by {
            if n <= i < before.len() {
                assert(before[i] == 0);
            }
        }
    }
    v
}

/// Sum (exclusive or) of two polynomials, trimmed.
pub fn poly_add(a: &[u8], b: &[u8]) -> (r: Vec<u8>)
    requires
        binary(a@),
        binary(b@),
    ensures
        forall|i: int| #[trigger] pc(r@, i) == (pc(a@, i) != pc(b@, i)),
        trimmed(r@),
        r@.len() <= a@.len() || r@.len() <= b@.len() || r@.len() == 1,
{
    let max_len = if a.len() >= b.len() { a.len() } else { b.len() };
    let mut res = vec![0u8; max_len];
    let mut i: usize = 0;
    while i < a.len()
        invariant
            max_len >= a@.len(),
            max_len >= b@.len(),
            res@.len() == max_len,
            i <= a@.len(),
            binary(a@),
            forall|j: int| 0 <= j < max_len ==> #[trigger] res@[j] == (if j < i { a@[j] } else { 0u8 }),
        decreases a@.len() - i,
    {
        let cur = res[i];
        let x = a[i];
        res.set(i, cur ^ x);
        proof {
            lemma_byte_facts(cur, x);
        }
        i = i + 1;
    }
    let mut i: usize = 0;
    while i < b.len()
        invariant
            max_len >= a@.len(),
            max_len >= b@.len(),
            res@.len() == max_len,
            i <= b@.len(),
            binary(a@),
            binary(b@),
            forall|j: int|
                0 <= j < max_len ==> #[trigger] res@[j] == (if j < i {
                    (if j < a@.len() { a@[j] } else { 0u8 }) ^ b@[j]
                } else {
                    (if j < a@.len() { a@[j] } else { 0u8 })
                }),
        decreases b@.len() - i,
    {
        let x = res[i];
        let y = b[i];
        res.set(i, x ^ y);
        i = i + 1;
    }
    proof {
        assert forall|j: int| 0 <= j < max_len implies #[trigger] res@[j] <= 1 && (res@[j] == 1) == (
        pc(a@, j) != pc(b@, j)) by {
            let x = if j < a@.len() { a@[j] } else { 0u8 };
            let y = if j < b@.len() { b@[j] } else { 0u8 };
            assert(x <= 1 && y <= 1);
            let v = res@[j];
            assert(v == x ^ y) by {
                if j >= b@.len() {
                    lemma_byte_facts(x, y);
                }
            }
            lemma_byte_facts(x, y);
        }
    }
    let ghost full = res@;
    let r = trim_in_place(res);
    proof {
        assert forall|i: int| #[trigger] pc(r@, i) == (pc(a@, i) != pc(b@, i)) by {
            assert(pc(r@, i) == pc(full, i));
        }
    }
    r
}

/// Product of two polynomials, trimmed.
pub fn poly_mul(a: &[u8], b: &[u8]) -> (r: Vec<u8>)
    requires
        binary(a@),
        binary(b@),
        a@.len() + b@.len() <= usize::MAX,
    ensures
        forall|k: int| #[trigger] pc(r@, k) == pmul(a@, b@, k),
        trimmed(r@),
        r@.len() == 1 || r@.len() + 1 <= a@.len() + b@.len(),
{
    let la = sig_len(a);
    let lb = sig_len(b);
    if la == 0 || lb == 0 {
        let r = vec![0u8];
        proof {
            if la == 0 {
                assert(zero_poly(a@)) by {
                    assert forall|i: int| !#[trigger] pc(a@, i) by {
                        if 0 <= i < a@.len() {
                            assert(a@[i] == 0);
                        }
                    }
                }
            } else {
                assert(zero_poly(b@)) by {
                    assert forall|i: int| !#[trigger] pc(b@, i) by {
                        if 0 <= i < b@.len() {
                            assert(b@[i] == 0);
                        }
                    }
                }
            }
            assert forall|k: int| #[trigger] pc(r@, k) == pmul(a@, b@, k) by {
                lemma_pmul_prefix_zero(a@, b@, k, a@.len() as int);
            }
            assert(r@ =~= seq![0u8]);
        }
        return r;
    }
    proof {
        assert forall|j: int| j >= lb implies !#[trigger] pc(b@, j) by {
            if j < b@.len() {
                assert(b@[j] == 0);
            }
        }
    }
    let n = la + lb - 1;
    let mut res = vec![0u8; n];
    let mut i: usize = 0;
    while i < la
        invariant
            la <= a@.len(),
            lb <= b@.len(),
            la >= 1,
            lb >= 1,
            n == la + lb - 1,
            res@.len() == n,
            i <= la,
            binary(a@),
            binary(b@),
            forall|j: int| j >= lb ==> !#[trigger] pc(b@, j),
            forall|k: int|
                0 <= k < n ==> #[trigger] res@[k] <= 1 && (res@[k] == 1) == pmul_prefix(a@, b@, k, i as int),
        decreases la - i,
    {
        if a[i] == 1 {
            let mut j: usize = 0;
            while j < lb
                invariant
                    la <= a@.len(),
                    lb <= b@.len(),
                    n == la + lb - 1,
                    res@.len() == n,
                    i < la,
                    j <= lb,
                    binary(b@),
                    forall|k: int|
                        0 <= k < n ==> #[trigger] res@[k] <= 1 && (res@[k] == 1) == (pmul_prefix(
                            a@,
                            b@,
                            k,
                            i as int,
                        ) != (i <= k < i + j && b@[k - i] == 1)),
                decreases lb - j,
            {
                let cur = res[i + j];
                let bj = b[j];
                res.set(i + j, cur ^ bj);
                proof {
                    assert(bj <= 1);
                    lemma_byte_facts(cur, bj);
                }
                j = j + 1;
            }
        }
        proof {
            assert forall|k: int| 0 <= k < n implies #[trigger] res@[k] <= 1 && (res@[k] == 1)
                == pmul_prefix(a@, b@, k, i + 1) by {
                assert(pmul_prefix(a@, b@, k, i + 1) == (pmul_prefix(a@, b@, k, i as int) != (
                pc(a@, i as int) && pc(b@, k - i))));
            }
        }
        i = i + 1;
    }
    proof {
        assert forall|k: int| #[trigger] pc(res@, k) == pmul(a@, b@, k) by {
            lemma_pmul_prefix_tail(a@, b@, k, la as int, a@.len() as int);
            if k < 0 || k >= n {
                lemma_pmul_prefix_support_sig(a@, b@, k, la as int, lb as int);
            }
        }
        // The top coefficient is one: only the term of degree la - 1 reaches n - 1.
        lemma_pmul_prefix_support_sig(a@, b@, n - 1, la - 1, lb as int);
        assert(pmul_prefix(a@, b@, n - 1, la as int) == (pmul_prefix(a@, b@, n - 1, la - 1) != (pc(
            a@,
            la - 1,
        ) && pc(b@, n - 1 - (la - 1)))));
        assert(res@.last() == 1);
        assert forall|k: int| 0 <= k < res@.len() implies #[trigger] res@[k] <= 1 by {}
    }
    res
}

/// The partial product vanishes outside `[0, n - 1 + lb)` when `b` has no
/// coefficient at degree `lb` or above.
pub proof fn lemma_pmul_prefix_support_sig(a: Seq<u8>, b: Seq<u8>, k: int, n: int, lb: int)
    requires
        forall|j: int| j >= lb ==> !#[trigger] pc(b, j),
        k < 0 || k >= n - 1 + lb,
    ensures
        !pmul_prefix(a, b, k, n),
    decreases n,
{
    if n > 0 {
        lemma_pmul_prefix_support_sig(a, b, k, n - 1, lb);
    }
}

/// Terms of `a` that are zero from degree `la` on add nothing.
pub proof fn lemma_pmul_prefix_tail(a: Seq<u8>, b: Seq<u8>, k: int, la: int, n: int)
    requires
        0 <= la <= n,
        forall|i: int| la <= i < a.len() ==> #[trigger] a[i] == 0,
    ensures
        pmul_prefix(a, b, k, n) == pmul_prefix(a, b, k, la),
    decreases n - la,
{
    if n > la {
        lemma_pmul_prefix_tail(a, b, k, la, n - 1);
        if n - 1 < a.len() {
            assert(a[n - 1] == 0);
        }
    }
}

/// Division with remainder: `a = q * b + r` with `r` zero or shorter than `b`.
pub fn poly_div(a: &[u8], b: &[u8]) -> (res: (Vec<u8>, Vec<u8>))
    requires
        binary(a@),
        trimmed(b@),
        !zero_poly(b@),
    ensures
        forall|k: int| #[trigger] pc(a@, k) == (pmul(res.0@, b@, k) != pc(res.1@, k)),
        trimmed(res.0@),
        trimmed(res.1@),
        zero_poly(res.1@) || res.1@.len() < b@.len(),
        res.0@.len() == 1 || res.0@.len() + b@.len() <= a@.len() + 1,
{
    let ta = trim(a);
    proof {
        if b@ =~= seq![0u8] {
            assert(zero_poly(b@));
        }
    }
    let b_deg = b.len() - 1;
    let mut r = ta;
    let max_q: usize = if r.len() > b_deg {
        r.len() - b_deg
    } else {
        0
    };
    let mut q: Vec<u8> = vec![0u8; max_q];
    let ghost mut iterated = false;
    proof {
        assert forall|k: int| #[trigger] pc(ta@, k) == (pmul(q@, b@, k) != pc(r@, k)) by {
            lemma_pmul_prefix_zero(q@, b@, k, q@.len() as int);
        }
    }
    while r.len() > b_deg && !(r.len() == 1 && r[0] == 0)
        invariant
            b@.len() == b_deg + 1,
            b@.last() == 1,
            binary(b@),
            binary(r@),
            binary(q@),
            q@.len() == max_q,
            r@.len() == 0 || r@.last() == 1 || r@ =~= seq![0u8],
            r@.len() <= ta@.len(),
            ta@.len() > b_deg ==> max_q == ta@.len() - b_deg,
            forall|k: int| #[trigger] pc(ta@, k) == (pmul(q@, b@, k) != pc(r@, k)),
            forall|s: int| 0 <= s < max_q && s + b_deg < r@.len() ==> #[trigger] q@[s] == 0,
            iterated ==> max_q >= 1 && q@[max_q - 1] == 1,
            !iterated ==> r@ == ta@,
        decreases r@.len(),
    {
        let r_deg = r.len() - 1;
        let shift = r_deg - b_deg;
        let ghost q_old = q@;
        let ghost r_old = r@;
        proof {
            assert(r_old.last() == 1);
            assert(q_old[shift as int] == 0);
        }
        q.set(shift, 1);
        proof {
            iterated = true;
        }
        let mut j: usize = 0;
        while j < b.len()
            invariant
                r@.len() == r_old.len(),
                r_old.len() == r_deg + 1,
                shift + b@.len() == r@.len(),
                j <= b@.len(),
                forall|t: int|
                    0 <= t < r@.len() ==> #[trigger] r@[t] == (if shift <= t < shift + j {
                        r_old[t] ^ b@[t - shift]
                    } else {
                        r_old[t]
                    }),
            decreases b@.len() - j,
        {
            let x = r[shift + j];
            let y = b[j];
            r.set(shift + j, x ^ y);
            j = j + 1;
        }
        proof {
            assert forall|t: int| 0 <= t < r@.len() implies #[trigger] r@[t] <= 1 && (r@[t] == 1) == (
            pc(r_old, t) != pc(b@, t - shift)) by {
                if shift <= t {
                    let x = r_old[t];
                    let y = b@[t - shift];
                    assert(x <= 1 && y <= 1);
                    lemma_byte_facts(x, y);
                }
            }
            let x = r_old[r_deg as int];
            let y = b@[b_deg as int];
            assert(x == 1 && y == 1);
            lemma_byte_facts(x, y);
        }
        let ghost r_mid = r@;
        while r.len() > 0 && r[r.len() - 1] == 0
            invariant
                r@.len() <= r_mid.len(),
                r@ == r_mid.take(r@.len() as int),
                forall|t: int| r@.len() <= t < r_mid.len() ==> #[trigger] r_mid[t] == 0,
            decreases r@.len(),
        {
            r.pop();
        }
        proof {
            assert(r_mid[r_deg as int] == 0);
            if r@.len() == r_mid.len() {
                assert(r@.len() == 0 || r@[r@.len() - 1] == 0);
            }
            assert(r@.len() <= r_deg);
            assert forall|k: int| #[trigger] pc(r@, k) == (pc(r_old, k) != pc(b@, k - shift)) by {
                assert(pc(r@, k) == pc(r_mid, k));
            }
            assert forall|k: int| #[trigger] pc(ta@, k) == (pmul(q@, b@, k) != pc(r@, k)) by {
                lemma_pmul_prefix_toggle(q_old, b@, shift as int, k, q_old.len() as int);
                assert(q@ == q_old.update(shift as int, 1u8));
            }
            assert forall|i: int| 0 <= i < r@.len() implies #[trigger] r@[i] <= 1 by {
                assert(r@[i] == r_mid[i]);
            }
        }
    }
    if r.len() == 0 {
        r = vec![0u8];
        proof {
            assert(r@ =~= seq![0u8]);
        }
    }
    let tq = if max_q == 0 {
        vec![0u8]
    } else {
        q
    };
    proof {
        if max_q == 0 {
            assert(tq@ =~= seq![0u8]);
            assert forall|k: int| #[trigger] pmul(tq@, b@, k) == pmul(q@, b@, k) by {
                lemma_pmul_prefix_zero(tq@, b@, k, 1);
            }
        } else if !iterated {
            assert(ta@ =~= seq![0u8]);
            assert(tq@ =~= seq![0u8]);
        }
        assert forall|k: int| #[trigger] pc(a@, k) == (pmul(tq@, b@, k) != pc(r@, k)) by {
            assert(pc(a@, k) == pc(ta@, k));
        }
        if tq@.len() > 1 {
            assert(ta@.len() <= a@.len());
        }
        if !zero_poly(r@) && r@.len() >= b@.len() {
            if r@ =~= seq![0u8] {
                assert(!pc(r@, 0));
            }
        }
    }
    (tq, r)
}


/// The reduction of a product of vectors is the product of their reductions.
pub proof fn lemma_red_pmul(a: Seq<u8>, b: Seq<u8>)
    ensures
        red_fn(pmul_fn(a, b, a.len() as int), (a.len() + b.len()) as int) == ring_mul(red(a), red(b)),
{
    lemma_red_pmul_prefix(a, b, a.len() as int);
}

/// The coefficients at degrees `d` and `t`.
pub open spec fn pair_fn(d: int, t: int) -> spec_fn(int) -> bool {
    |k: int| k == d || k == t
}

/// Moving a coefficient from degree `d >= M` to degree `d mod M` keeps the reduction.
pub proof fn lemma_red_move(c1: Seq<u8>, c2: Seq<u8>, d: int)
    requires
        M <= d,
        forall|k: int| #[trigger] pc(c2, k) == (pc(c1, k) != (k == d || k == d % (M as int))),
    ensures
        red(c2) == red(c1),
{
    let t = d % (M as int);
    let mv = pair_fn(d, t);
    lemma_mod_bound(d, M as int);
    assert forall|k: int| #[trigger] pc(c2, k) == (pc(c1, k) != mv(k)) by {}
    lemma_red_xor(c2, c1, mv, d + 1);
    assert forall|j: int| 0 <= j < M implies !#[trigger] redc(mv, d + 1, j) by {
        lemma_redc_support(mv, t + 1, d, j);
        lemma_redc_support(mv, 0, t, j);
        lemma_small_mod(t as nat, M as nat);
    }
    assert(red_fn(mv, d + 1) =~= ring_zero());
    assert(ring_add(red(c1), ring_zero()) =~= red(c1));
}

/// The reduction of the vector `[1]` is one.
pub proof fn lemma_red_one(p: Seq<u8>)
    requires
        p =~= seq![1u8],
    ensures
        red(p) == ring_one(),
{
    assert forall|j: int| 0 <= j < M implies red(p)[j] == ring_one()[j] by {
        lemma_redc_small(pc_fn(p), 1, j);
    }
    assert(red(p) =~= ring_one());
}

/// The reduction of the vector `[0]` is zero.
pub proof fn lemma_red_zero(p: Seq<u8>)
    requires
        zero_poly(p),
    ensures
        red(p) == ring_zero(),
{
    assert forall|j: int| 0 <= j < M implies !red(p)[j] by {
        lemma_redc_support(pc_fn(p), 0, p.len() as int, j);
    }
    assert(red(p) =~= ring_zero());
}

/// A trimmed vector whose highest nonzero coefficient is at degree `d` has
/// length `d + 1`.
pub proof fn lemma_trimmed_len(p: Seq<u8>, d: int)
    requires
        trimmed(p),
        pc(p, d),
        forall|k: int| k > d ==> !#[trigger] pc(p, k),
    ensures
        p.len() == d + 1,
{
    if p =~= seq![0u8] {
        assert(!pc(p, d));
    }
    assert(pc(p, p.len() - 1));
}

/// The product of two nonzero trimmed vectors has degree `deg a + deg b`.
pub proof fn lemma_pmul_degree(a: Seq<u8>, b: Seq<u8>)
    requires
        trimmed(a),
        trimmed(b),
        !zero_poly(a),
        !zero_poly(b),
    ensures
        pmul(a, b, a.len() + b.len() - 2),
        forall|k: int| k > a.len() + b.len() - 2 ==> !#[trigger] pmul(a, b, k),
{
    let la = a.len() as int;
    let lb = b.len() as int;
    if a =~= seq![0u8] {
        assert(!pc(a, 0));
        assert forall|k: int| !#[trigger] pc(a, k) by {}
    }
    if b =~= seq![0u8] {
        assert forall|k: int| !#[trigger] pc(b, k) by {}
    }
    lemma_pmul_prefix_support(a, b, la + lb - 2, la - 1);
    assert(pc(a, la - 1) && pc(b, lb - 1));
    assert forall|k: int| k > a.len() + b.len() - 2 implies !#[trigger] pmul(a, b, k) by {
        lemma_pmul_prefix_support(a, b, k, la);
    }
}

/// `x` is zero or of lower degree than `y` (both trimmed).
pub open spec fn lower_degree(x: Seq<u8>, y: Seq<u8>) -> bool {
    zero_poly(x) || x.len() < y.len()
}

/// Adding a polynomial of lower degree keeps the degree.
pub proof fn lemma_add_degree(x: Seq<u8>, y: Seq<u8>, r: Seq<u8>)
    requires
        trimmed(x),
        trimmed(y),
        trimmed(r),
        !zero_poly(y),
        lower_degree(x, y),
        forall|i: int| #[trigger] pc(r, i) == (pc(x, i) != pc(y, i)),
    ensures
        r.len() == y.len(),
        !zero_poly(r),
{
    let d = y.len() - 1;
    if y =~= seq![0u8] {
        assert forall|k: int| !#[trigger] pc(y, k) by {}
    }
    assert(pc(y, d));
    assert(!pc(x, d));
    assert forall|k: int| k > d implies !#[trigger] pc(r, k) by {
        assert(!pc(x, k) && !pc(y, k));
    }
    lemma_trimmed_len(r, d);
    assert(pc(r, d));
}

/// In a division `a = q * b + r` with `deg b <= deg a`, the quotient is
/// nonzero and `deg q == deg a - deg b`.
pub proof fn lemma_quotient_degree(a: Seq<u8>, b: Seq<u8>, q: Seq<u8>, r: Seq<u8>)
    requires
        trimmed(a),
        trimmed(b),
        trimmed(q),
        trimmed(r),
        !zero_poly(a),
        !zero_poly(b),
        b.len() <= a.len(),
        lower_degree(r, b),
        forall|k: int| #[trigger] pc(a, k) == (pmul(q, b, k) != pc(r, k)),
    ensures
        !zero_poly(q),
        q.len() + b.len() == a.len() + 1,
{
    let la = a.len() as int;
    let lb = b.len() as int;
    if a =~= seq![0u8] {
        assert forall|k: int| !#[trigger] pc(a, k) by {}
    }
    assert(pc(a, la - 1));
    assert forall|k: int| k >= lb - 1 implies !#[trigger] pc(r, k) by {}
    if zero_poly(q) {
        lemma_pmul_prefix_zero(q, b, la - 1, q.len() as int);
        assert(false);
    }
    lemma_pmul_degree(q, b);
    let d = q.len() + lb - 2;
    assert(pc(a, d));
    assert forall|k: int| k > d implies !#[trigger] pc(a, k) by {}
    lemma_trimmed_len(a, d);
}

/// The first step of the algorithm, on `a` of degree below M against `b` of
/// degree M: the quotient is zero and the new cofactor is one.
proof fn lemma_first_step(a: Seq<u8>, b: Seq<u8>, q: Seq<u8>, r: Seq<u8>, q_s1: Seq<u8>, new_s: Seq<u8>)
    requires
        a.len() <= M,
        b.len() == M + 1,
        trimmed(b),
        trimmed(q),
        trimmed(new_s),
        q.len() == 1 || q.len() + b.len() <= a.len() + 1,
        forall|k: int| #[trigger] pc(a, k) == (pmul(q, b, k) != pc(r, k)),
        zero_poly(r) || r.len() < b.len(),
        forall|k: int| #[trigger] pc(q_s1, k) == pmul(q, seq![0u8], k),
        forall|i: int| #[trigger] pc(new_s, i) == (pc(seq![1u8], i) != pc(q_s1, i)),
    ensures
        new_s == seq![1u8],
{
    let m = M as int;
    assert(pc(b, m));
    assert(q.len() == 1);
    if q[0] == 1 {
        reveal_with_fuel(pmul_prefix, 2);
        assert(pmul(q, b, m));
        assert(!pc(r, m));
        assert(!pc(a, m));
    }
    assert forall|k: int| !#[trigger] pc(q_s1, k) by {
        lemma_pmul_prefix_zero(q, seq![0u8], k, q.len() as int);
    }
    assert(pc(new_s, 0));
    assert forall|k: int| k > 0 implies !#[trigger] pc(new_s, k) by {}
    lemma_trimmed_len(new_s, 0);
    assert(new_s =~= seq![1u8]);
}

/// When the algorithm ends (`r1 == 0`) on a unit `a` of R, the last cofactor
/// `s1` satisfies `s1 * a == 0` in R, so `s1` is a nonzero multiple of
/// `x^M - 1`, of degree M; hence the gcd `r0` has degree 0.
proof fn lemma_gcd_of_unit(a: Seq<u8>, r0: Seq<u8>, r1: Seq<u8>, s1: Seq<u8>)
    requires
        odd_weight(red(a)),
        zero_poly(r1),
        ring_mul(red(s1), red(a)) == red(r1),
        trimmed(r0),
        !zero_poly(r0),
        trimmed(s1),
        !zero_poly(s1),
        s1.len() + r0.len() == M + 2,
    ensures
        r0 == seq![1u8],
{
    let aa = red(a);
    let inv = ring_inverse(aa);
    lemma_odd_weight_unit(aa);
    lemma_red_zero(r1);
    // red(s1) = red(s1) * (a * inv) = (red(s1) * a) * inv = 0.
    lemma_ring_mul_one(red(s1));
    lemma_ring_mul_associative(red(s1), aa, inv);
    lemma_ring_mul_zero(inv);
    assert(red(s1) == ring_zero());
    if s1 =~= seq![0u8] {
        assert(!pc(s1, 0));
        assert forall|k: int| !#[trigger] pc(s1, k) by {}
    }
    let d = s1.len() - 1;
    if d < M {
        assert(pc(s1, d));
        lemma_redc_small(pc_fn(s1), s1.len() as int, d);
        assert(red(s1)[d]);
    }
    assert(r0.len() == 1);
    if r0 =~= seq![0u8] {
        assert forall|k: int| !#[trigger] pc(r0, k) by {}
    }
    assert(r0 =~= seq![1u8]);
}

/// Extended Euclidean algorithm against `b`, tracking the cofactor of `a`:
/// returns `(g, s)` with `g` the last nonzero remainder and `s * a == g` in R.
/// The cofactors grow in degree as the remainders shrink (`deg s1 + deg r0`
/// stays M); this forces `g == 1` when `a` has odd weight.
pub fn ext_gcd_poly(a: &[u8], b: &[u8]) -> (res: (Vec<u8>, Vec<u8>))
    requires
        binary(a@),
        a@.len() <= M,
        trimmed(b@),
        b@.len() == M + 1,
        red(b@) == ring_zero(),
    ensures
        binary(res.0@),
        trimmed(res.1@),
        res.1@.len() + res.0@.len() <= M + 2,
        ring_mul(red(res.1@), red(a@)) == red(res.0@),
        odd_weight(red(a@)) ==> res.0@ == seq![1u8],
{
    let ghost aa = red(a@);
    let mut r0 = slice_to_vec(a);
    let mut r1 = slice_to_vec(b);
    let mut s0 = vec![1u8];
    let mut s1 = vec![0u8];
    let ghost mut started = false;
    proof {
        assert(s0@ == seq![1u8]);
        assert(s1@ == seq![0u8]);
        lemma_red_one(s0@);
        lemma_ring_mul_one(aa);
        assert(zero_poly(s1@));
        lemma_red_zero(s1@);
        lemma_ring_mul_zero(aa);
    }
    while !is_zero_poly(r1.as_slice())
        invariant
            binary(r0@),
            trimmed(r1@),
            trimmed(s0@),
            trimmed(s1@),
            r0@.len() <= M + 1,
            r1@.len() <= M + 1,
            s0@.len() + r0@.len() <= M + 2,
            s0@.len() + r1@.len() <= M + 2,
            s1@.len() + r0@.len() <= M + 2,
            s1@.len() + r1@.len() <= M + 2,
            aa == red(a@),
            ring_mul(red(s0@), aa) == red(r0@),
            ring_mul(red(s1@), aa) == red(r1@),
            a@.len() <= M,
            b@.len() == M + 1,
            trimmed(b@),
            !started ==> r0@ == a@ && r1@ == b@ && s0@ == seq![1u8] && s1@ == seq![0u8],
            started ==> trimmed(r0@) && !zero_poly(r0@) && lower_degree(r1@, r0@),
            started ==> !zero_poly(s1@) && lower_degree(s0@, s1@),
            started ==> s1@.len() + r0@.len() == M + 2,
        decreases (if zero_poly(r1@) {
            0
        } else {
            r1@.len() as int
        }),
    {
        let (q, r) = poly_div(r0.as_slice(), r1.as_slice());
        let q_s1 = poly_mul(q.as_slice(), s1.as_slice());
        let new_s = poly_add(s0.as_slice(), q_s1.as_slice());
        proof {
            let qq = red(q@);
            let ss0 = red(s0@);
            let ss1 = red(s1@);
            // The new remainder: r = r0 - q * r1.
            let g = pmul_fn(q@, r1@, q@.len() as int);
            let ng = (q@.len() + r1@.len()) as int;
            assert forall|k: int| k >= ng implies !#[trigger] g(k) by {
                lemma_pmul_prefix_support(q@, r1@, k, q@.len() as int);
            }
            assert forall|k: int| #[trigger] pc(r@, k) == (pc(r0@, k) != g(k)) by {
                assert(pc(r0@, k) == (pmul(q@, r1@, k) != pc(r@, k)));
            }
            lemma_red_xor(r@, r0@, g, ng);
            lemma_red_pmul(q@, r1@);
            // The new cofactor: s = s0 + q * s1.
            lemma_red_product(q_s1@, q@, s1@);
            assert forall|k: int| #[trigger] pc(new_s@, k) == (pc(s0@, k) != pc_fn(q_s1@)(k)) by {}
            assert forall|k: int| k >= q_s1@.len() implies !#[trigger] pc_fn(q_s1@)(k) by {}
            lemma_red_xor(new_s@, s0@, pc_fn(q_s1@), q_s1@.len() as int);
            assert(red(new_s@) == ring_add(ss0, ring_mul(qq, ss1)));
            // Bezout: s * a == r.
            lemma_ring_mul_distributes(ss0, ring_mul(qq, ss1), aa);
            lemma_ring_mul_associative(qq, ss1, aa);
            assert(ring_mul(red(new_s@), aa) == red(r@));
            if zero_poly(r@) && r@.last() == 1 {
                assert(pc(r@, r@.len() - 1));
            }
            assert(r@.len() <= r1@.len());
            // Degrees: deg s1 + deg r0 == M is kept.
            if !started {
                lemma_first_step(a@, b@, q@, r@, q_s1@, new_s@);
                assert(pc(new_s@, 0));
                assert(zero_poly(s1@));
            } else {
                assert(!zero_poly(r1@));
                lemma_quotient_degree(r0@, r1@, q@, r@);
                lemma_pmul_degree(q@, s1@);
                let d = q@.len() + s1@.len() - 2;
                assert(pc(q_s1@, d));
                lemma_trimmed_len(q_s1@, d);
                assert(q@.len() >= 2);
                lemma_add_degree(s0@, q_s1@, new_s@);
            }
            started = true;
        }
        r0 = r1;
        r1 = r;
        s0 = s1;
        s1 = new_s;
    }
    proof {
        if odd_weight(aa) {
            lemma_gcd_of_unit(a@, r0@, r1@, s1@);
        }
    }
    (r0, s0)
}

} // verus!

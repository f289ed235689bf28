//! Mathematical model of R = GF(2)[x] / (x^M - 1): an element is its sequence
//! of M coefficients, addition is exclusive or and multiplication is cyclic
//! convolution.

use vstd::prelude::*;
use vstd::arithmetic::div_mod::{
    lemma_add_mod_noop, lemma_add_mod_noop_right, lemma_fundamental_div_mod_converse_mod, lemma_mod_bound,
    lemma_small_mod, lemma_sub_mod_noop, lemma_sub_mod_noop_right,
};
use vstd::set_lib::lemma_map_size;
use crate::bits::{count_true, lemma_count_true_add, lemma_count_true_set, lemma_count_true_zero};
use crate::parameters::M;

verus! {

/// `(i - s) mod M`, always in `[0, M)`.
pub open spec fn sub_mod(i: int, s: int) -> int {
    (i - s) % (M as int)
}

/// `(i + s) mod M`, always in `[0, M)`.
pub open spec fn add_mod(i: int, s: int) -> int {
    (i + s) % (M as int)
}

/// Multiplication by `x^s`: coefficient `i` of the result is coefficient `i - s` (mod M) of `a`.
pub open spec fn rotate(a: Seq<bool>, s: int) -> Seq<bool> {
    Seq::new(M as nat, |i: int| a[sub_mod(i, s)])
}

/// Coefficient-wise exclusive or.
pub open spec fn ring_add(a: Seq<bool>, b: Seq<bool>) -> Seq<bool> {
    Seq::new(M as nat, |i: int| a[i] != b[i])
}

/// The additive identity.
pub open spec fn ring_zero() -> Seq<bool> {
    Seq::new(M as nat, |i: int| false)
}

/// The multiplicative identity.
pub open spec fn ring_one() -> Seq<bool> {
    Seq::new(M as nat, |i: int| i == 0)
}

/// Parity of the number of `i < n` with `a[i]` and `b[k - i mod M]`.
pub open spec fn conv_prefix(a: Seq<bool>, b: Seq<bool>, k: int, n: int) -> bool
    decreases n,
{
    if n <= 0 {
        false
    } else {
        conv_prefix(a, b, k, n - 1) != (a[n - 1] && b[sub_mod(k, n - 1)])
    }
}

/// Ring multiplication (cyclic convolution over GF(2)).
pub open spec fn ring_mul(a: Seq<bool>, b: Seq<bool>) -> Seq<bool> {
    Seq::new(M as nat, |k: int| conv_prefix(a, b, k, M as int))
}

/// Number of `i < n` with `a[i]` and `b[k - i mod M]`.
pub open spec fn conv_count(a: Seq<bool>, b: Seq<bool>, k: int, n: int) -> nat
    decreases n,
{
    if n <= 0 {
        0
    } else {
        conv_count(a, b, k, n - 1) + (if a[n - 1] && b[sub_mod(k, n - 1)] {
            1nat
        } else {
            0nat
        })
    }
}

/// The indices `i < n` with `a[i]` and `b[k - i mod M]`.
pub open spec fn conv_set(a: Seq<bool>, b: Seq<bool>, k: int, n: int) -> Set<int> {
    Set::new(|i: int| 0 <= i < n && a[i] && b[sub_mod(k, i)])
}

/// The indices `i < n` where `a[i]` is set, in increasing order.
pub open spec fn ones_prefix(a: Seq<bool>, n: int) -> Seq<usize>
    decreases n,
{
    if n <= 0 {
        Seq::empty()
    } else if a[n - 1] {
        ones_prefix(a, n - 1).push((n - 1) as usize)
    } else {
        ones_prefix(a, n - 1)
    }
}

/// Exclusive or of `b[k - p mod M]` over the entries `p` of `ps`.
pub open spec fn xor_rotations(ps: Seq<usize>, b: Seq<bool>, k: int) -> bool
    decreases ps.len(),
{
    if ps.len() == 0 {
        false
    } else {
        xor_rotations(ps.drop_last(), b, k) != b[sub_mod(k, ps.last() as int)]
    }
}

pub proof fn lemma_conv_prefix_count(a: Seq<bool>, b: Seq<bool>, k: int, n: int)
    ensures
        conv_prefix(a, b, k, n) == (conv_count(a, b, k, n) % 2 == 1),
    decreases n,
{
    if n > 0 {
        lemma_conv_prefix_count(a, b, k, n - 1);
    }
}

pub proof fn lemma_conv_set_count(a: Seq<bool>, b: Seq<bool>, k: int, n: int)
    requires
        0 <= n,
    ensures
        conv_set(a, b, k, n).finite(),
        conv_set(a, b, k, n).len() == conv_count(a, b, k, n),
    decreases n,
{
    if n == 0 {
        assert(conv_set(a, b, k, n) =~= Set::empty());
    } else {
        lemma_conv_set_count(a, b, k, n - 1);
        if a[n - 1] && b[sub_mod(k, n - 1)] {
            assert(conv_set(a, b, k, n) =~= conv_set(a, b, k, n - 1).insert(n - 1));
        } else {
            assert(conv_set(a, b, k, n) =~= conv_set(a, b, k, n - 1));
        }
    }
}

/// `conv_prefix` over the ones of `a` is the exclusive or of the matching rotations.
pub proof fn lemma_conv_prefix_ones(a: Seq<bool>, b: Seq<bool>, k: int, n: int)
    requires
        n <= M,
    ensures
        conv_prefix(a, b, k, n) == xor_rotations(ones_prefix(a, n), b, k),
    decreases n,
{
    if n > 0 {
        lemma_conv_prefix_ones(a, b, k, n - 1);
        if a[n - 1] {
            assert(ones_prefix(a, n).drop_last() == ones_prefix(a, n - 1));
            assert(ones_prefix(a, n).last() as int == n - 1);
        }
    }
}

/// Shape of `ones_prefix`: strictly increasing indices below `n`, exactly the set ones.
pub proof fn lemma_ones_prefix_shape(a: Seq<bool>, n: int)
    requires
        0 <= n <= a.len(),
        n <= M,
    ensures
        forall|t: int| 0 <= t < ones_prefix(a, n).len() ==> (#[trigger] ones_prefix(a, n)[t]) < n
            && a[ones_prefix(a, n)[t] as int],
        forall|t: int, u: int|
            0 <= t < u < ones_prefix(a, n).len() ==> ones_prefix(a, n)[t] < ones_prefix(a, n)[u],
        forall|i: int| 0 <= i < n && a[i] ==> ones_prefix(a, n).contains(i as usize),
    decreases n,
{
    if n > 0 {
        lemma_ones_prefix_shape(a, n - 1);
        let p = ones_prefix(a, n - 1);
        if a[n - 1] {
            let q = p.push((n - 1) as usize);
            assert forall|i: int| 0 <= i < n && a[i] implies q.contains(i as usize) by {
                if i < n - 1 {
                    let t = choose|t: int| 0 <= t < p.len() && p[t] == i as usize;
                    assert(q[t] == i as usize);
                } else {
                    assert(q[p.len() as int] == i as usize);
                }
            }
        }
    }
}

/// The indicator of a list of distinct positions below M counts the list's length.
pub proof fn lemma_count_positions(s: Seq<usize>)
    requires
        s.no_duplicates(),
        forall|t: int| 0 <= t < s.len() ==> #[trigger] s[t] < M,
    ensures
        count_true(Seq::new(M as nat, |i: int| s.contains(i as usize))) == s.len(),
    decreases s.len(),
{
    let v = Seq::new(M as nat, |i: int| s.contains(i as usize));
    if s.len() == 0 {
        lemma_count_true_zero(v);
    } else {
        let p = s.drop_last();
        let w = Seq::new(M as nat, |i: int| p.contains(i as usize));
        lemma_count_positions(p);
        let l = s.last();
        assert(!p.contains(l)) by {
            if p.contains(l) {
                let t = choose|t: int| 0 <= t < p.len() && p[t] == l;
                assert(s[t] == s[s.len() - 1]);
            }
        }
        assert forall|i: int| 0 <= i < M implies v[i] == w.update(l as int, true)[i] by {
            if i == l as int {
                assert(s[s.len() - 1] == l);
            } else {
                if s.contains(i as usize) {
                    let t = choose|t: int| 0 <= t < s.len() && s[t] == i as usize;
                    assert(p[t] == i as usize);
                }
                if p.contains(i as usize) {
                    let t = choose|t: int| 0 <= t < p.len() && p[t] == i as usize;
                    assert(s[t] == i as usize);
                }
            }
        }
        assert(v =~= w.update(l as int, true));
        lemma_count_true_set(w, l as int);
    }
}

/// Ones outside `[n0, n1)` do not change `ones_prefix` between the two bounds.
pub proof fn lemma_ones_prefix_skip(a: Seq<bool>, n0: int, n1: int)
    requires
        0 <= n0 <= n1,
        forall|i: int| n0 <= i < n1 ==> !a[i],
    ensures
        ones_prefix(a, n1) == ones_prefix(a, n0),
    decreases n1 - n0,
{
    if n1 > n0 {
        lemma_ones_prefix_skip(a, n0, n1 - 1);
    }
}

/// Multiplication is commutative.
pub proof fn lemma_ring_mul_commutative(a: Seq<bool>, b: Seq<bool>)
    ensures
        ring_mul(a, b) == ring_mul(b, a),
{
    assert forall|k: int| 0 <= k < M implies ring_mul(a, b)[k] == ring_mul(b, a)[k] by {
        lemma_conv_comm_coeff(a, b, k);
    }
    assert(ring_mul(a, b) =~= ring_mul(b, a));
}

proof fn lemma_conv_comm_coeff(a: Seq<bool>, b: Seq<bool>, k: int)
    requires
        0 <= k < M,
    ensures
        conv_prefix(a, b, k, M as int) == conv_prefix(b, a, k, M as int),
{
    let m = M as int;
    let sa = conv_set(a, b, k, m);
    let sb = conv_set(b, a, k, m);
    lemma_conv_set_count(a, b, k, m);
    lemma_conv_set_count(b, a, k, m);
    lemma_conv_prefix_count(a, b, k, m);
    lemma_conv_prefix_count(b, a, k, m);
    let f = |i: int| sub_mod(k, i);
    assert forall|i1: int, i2: int| sa.contains(i1) && sa.contains(i2) && f(i1) == f(i2) implies i1
        == i2 by {
        lemma_sub_mod_cancel(k, i1, i2);
    }
    assert forall|j: int| sb.contains(j) implies sa.map(f).contains(j) by {
        let i = sub_mod(k, j);
        lemma_sub_mod_involutive(k, j);
        assert(sa.contains(i));
        assert(f(i) == j);
    }
    assert forall|j: int| sa.map(f).contains(j) implies sb.contains(j) by {
        let i = choose|i: int| sa.contains(i) && f(i) == j;
        lemma_sub_mod_involutive(k, i);
    }
    assert(sa.map(f) =~= sb);
    lemma_map_size(sa, sb, f);
}

/// `k - (k - j mod M) mod M == j` for `j` in range.
pub proof fn lemma_sub_mod_involutive(k: int, j: int)
    requires
        0 <= j < M,
    ensures
        0 <= sub_mod(k, j) < M,
        sub_mod(k, sub_mod(k, j)) == j,
{
    let m = M as int;
    lemma_mod_bound(k - j, m);
    lemma_sub_mod_noop_right(k, k - j, m);
    lemma_small_mod(j as nat, m as nat);
}

/// `k - i1 == k - i2 (mod M)` forces `i1 == i2` for indices in range.
pub proof fn lemma_sub_mod_cancel(k: int, i1: int, i2: int)
    requires
        0 <= i1 < M,
        0 <= i2 < M,
        sub_mod(k, i1) == sub_mod(k, i2),
    ensures
        i1 == i2,
{
    lemma_sub_mod_involutive(k, i1);
    lemma_sub_mod_involutive(k, i2);
}

/// The element `x^s` (for `0 <= s < M`).
pub open spec fn monomial(s: int) -> Seq<bool> {
    Seq::new(M as nat, |i: int| i == s)
}

/// The terms of `a` of degree below `n`.
pub open spec fn low_part(a: Seq<bool>, n: int) -> Seq<bool> {
    Seq::new(M as nat, |i: int| i < n && a[i])
}

/// `((i - s) mod M + s) mod M == i` for `i` in range.
pub proof fn lemma_add_sub_mod(i: int, s: int)
    requires
        0 <= i < M,
    ensures
        add_mod(sub_mod(i, s), s) == i,
{
    let m = M as int;
    lemma_add_mod_noop(i - s, s, m);
    lemma_add_mod_noop_right(sub_mod(i, s), s, m);
    lemma_mod_bound(s, m);
    lemma_mod_bound(i - s, m);
    lemma_small_mod(i as nat, m as nat);
    assert((i - s) % m % m == (i - s) % m) by {
        lemma_small_mod(((i - s) % m) as nat, m as nat);
    }
}

/// `((l + s) mod M - s) mod M == l` for `l` in range.
pub proof fn lemma_sub_add_mod(l: int, s: int)
    requires
        0 <= l < M,
    ensures
        sub_mod(add_mod(l, s), s) == l,
{
    let m = M as int;
    lemma_sub_mod_noop(l + s, s, m);
    lemma_sub_mod_noop_right(add_mod(l, s), s, m);
    lemma_mod_bound(l + s, m);
    lemma_small_mod(l as nat, m as nat);
    assert((l + s) % m % m == (l + s) % m) by {
        lemma_small_mod(((l + s) % m) as nat, m as nat);
    }
}

/// Subtracting `s` from both indices does not change their difference mod M.
pub proof fn lemma_sub_mod_shift(k: int, i: int, s: int)
    ensures
        sub_mod(sub_mod(k, s), sub_mod(i, s)) == sub_mod(k, i),
{
    lemma_sub_mod_noop(k - s, i - s, M as int);
}

proof fn lemma_conv_prefix_add(x: Seq<bool>, y: Seq<bool>, b: Seq<bool>, k: int, n: int)
    requires
        n <= M,
    ensures
        conv_prefix(ring_add(x, y), b, k, n) == (conv_prefix(x, b, k, n) != conv_prefix(y, b, k, n)),
    decreases n,
{
    if n > 0 {
        lemma_conv_prefix_add(x, y, b, k, n - 1);
    }
}

/// Multiplication distributes over addition (on the left; see commutativity for the right).
pub proof fn lemma_ring_mul_distributes(x: Seq<bool>, y: Seq<bool>, b: Seq<bool>)
    ensures
        ring_mul(ring_add(x, y), b) == ring_add(ring_mul(x, b), ring_mul(y, b)),
{
    assert forall|k: int| 0 <= k < M implies ring_mul(ring_add(x, y), b)[k] == ring_add(
        ring_mul(x, b),
        ring_mul(y, b),
    )[k] by {
        lemma_conv_prefix_add(x, y, b, k, M as int);
    }
    assert(ring_mul(ring_add(x, y), b) =~= ring_add(ring_mul(x, b), ring_mul(y, b)));
}

proof fn lemma_conv_prefix_zero(b: Seq<bool>, k: int, n: int)
    requires
        n <= M,
    ensures
        !conv_prefix(ring_zero(), b, k, n),
    decreases n,
{
    if n > 0 {
        lemma_conv_prefix_zero(b, k, n - 1);
    }
}

/// Zero times anything is zero.
pub proof fn lemma_ring_mul_zero(b: Seq<bool>)
    ensures
        ring_mul(ring_zero(), b) == ring_zero(),
{
    assert forall|k: int| 0 <= k < M implies ring_mul(ring_zero(), b)[k] == ring_zero()[k] by {
        lemma_conv_prefix_zero(b, k, M as int);
    }
    assert(ring_mul(ring_zero(), b) =~= ring_zero());
}

proof fn lemma_conv_prefix_monomial(s: int, b: Seq<bool>, k: int, n: int)
    requires
        0 <= s < M,
        n <= M,
    ensures
        conv_prefix(monomial(s), b, k, n) == (s < n && b[sub_mod(k, s)]),
    decreases n,
{
    if n > 0 {
        lemma_conv_prefix_monomial(s, b, k, n - 1);
    }
}

/// Multiplying by `x^s` rotates by `s`.
pub proof fn lemma_ring_mul_monomial(s: int, b: Seq<bool>)
    requires
        0 <= s < M,
    ensures
        ring_mul(monomial(s), b) == rotate(b, s),
{
    assert forall|k: int| 0 <= k < M implies ring_mul(monomial(s), b)[k] == rotate(b, s)[k] by {
        lemma_conv_prefix_monomial(s, b, k, M as int);
    }
    assert(ring_mul(monomial(s), b) =~= rotate(b, s));
}

/// One is the multiplicative identity.
pub proof fn lemma_ring_mul_one(b: Seq<bool>)
    requires
        b.len() == M,
    ensures
        ring_mul(ring_one(), b) == b,
        ring_mul(b, ring_one()) == b,
{
    assert(ring_one() =~= monomial(0));
    lemma_ring_mul_monomial(0, b);
    assert forall|i: int| 0 <= i < M implies rotate(b, 0)[i] == b[i] by {
        lemma_small_mod(i as nat, M as nat);
    }
    assert(rotate(b, 0) =~= b);
    lemma_ring_mul_commutative(b, ring_one());
}

/// Rotating a factor rotates the product.
pub proof fn lemma_ring_mul_rotate(b: Seq<bool>, c: Seq<bool>, s: int)
    ensures
        ring_mul(rotate(b, s), c) == rotate(ring_mul(b, c), s),
{
    assert forall|k: int| 0 <= k < M implies ring_mul(rotate(b, s), c)[k] == rotate(
        ring_mul(b, c),
        s,
    )[k] by {
        lemma_rotate_coeff(b, c, s, k);
    }
    assert(ring_mul(rotate(b, s), c) =~= rotate(ring_mul(b, c), s));
}

proof fn lemma_rotate_coeff(b: Seq<bool>, c: Seq<bool>, s: int, k: int)
    requires
        0 <= k < M,
    ensures
        conv_prefix(rotate(b, s), c, k, M as int) == conv_prefix(b, c, sub_mod(k, s), M as int),
{
    let m = M as int;
    let rb = rotate(b, s);
    let k2 = sub_mod(k, s);
    let s1 = conv_set(rb, c, k, m);
    let s2 = conv_set(b, c, k2, m);
    lemma_conv_set_count(rb, c, k, m);
    lemma_conv_set_count(b, c, k2, m);
    lemma_conv_prefix_count(rb, c, k, m);
    lemma_conv_prefix_count(b, c, k2, m);
    let f = |i: int| sub_mod(i, s);
    assert forall|i1: int, i2: int| s1.contains(i1) && s1.contains(i2) && f(i1) == f(i2) implies i1
        == i2 by {
        lemma_add_sub_mod(i1, s);
        lemma_add_sub_mod(i2, s);
    }
    assert forall|i: int| s1.contains(i) implies s2.contains(f(i)) by {
        lemma_mod_bound(i - s, m);
        lemma_sub_mod_shift(k, i, s);
    }
    assert forall|l: int| s2.contains(l) implies s1.map(f).contains(l) by {
        let i = add_mod(l, s);
        lemma_mod_bound(l + s, m);
        lemma_sub_add_mod(l, s);
        lemma_sub_mod_shift(k, i, s);
        assert(s1.contains(i));
        assert(f(i) == l);
    }
    assert forall|l: int| s1.map(f).contains(l) implies s2.contains(l) by {
        let i = choose|i: int| s1.contains(i) && f(i) == l;
    }
    assert(s1.map(f) =~= s2);
    lemma_map_size(s1, s2, f);
}

/// Adding the term of degree `n` to the low part multiplies in as a rotation.
proof fn lemma_low_part_step(a: Seq<bool>, y: Seq<bool>, n: int)
    requires
        0 <= n < M,
    ensures
        ring_mul(low_part(a, n + 1), y) == ring_add(
            ring_mul(low_part(a, n), y),
            if a[n] {
                rotate(y, n)
            } else {
                ring_zero()
            },
        ),
{
    let e = if a[n] {
        monomial(n)
    } else {
        ring_zero()
    };
    assert(low_part(a, n + 1) =~= ring_add(low_part(a, n), e));
    lemma_ring_mul_distributes(low_part(a, n), e, y);
    if a[n] {
        lemma_ring_mul_monomial(n, y);
    } else {
        lemma_ring_mul_zero(y);
    }
}

proof fn lemma_assoc_prefix(a: Seq<bool>, b: Seq<bool>, c: Seq<bool>, n: int)
    requires
        0 <= n <= M,
    ensures
        ring_mul(ring_mul(low_part(a, n), b), c) == ring_mul(low_part(a, n), ring_mul(b, c)),
    decreases n,
{
    if n == 0 {
        assert(low_part(a, 0) =~= ring_zero());
        lemma_ring_mul_zero(b);
        lemma_ring_mul_zero(c);
        lemma_ring_mul_zero(ring_mul(b, c));
    } else {
        let p = n - 1;
        lemma_assoc_prefix(a, b, c, p);
        lemma_low_part_step(a, b, p);
        lemma_low_part_step(a, ring_mul(b, c), p);
        let x = if a[p] {
            rotate(b, p)
        } else {
            ring_zero()
        };
        lemma_ring_mul_distributes(ring_mul(low_part(a, p), b), x, c);
        if a[p] {
            lemma_ring_mul_rotate(b, c, p);
        } else {
            lemma_ring_mul_zero(c);
        }
    }
}

/// Multiplication is associative.
pub proof fn lemma_ring_mul_associative(a: Seq<bool>, b: Seq<bool>, c: Seq<bool>)
    requires
        a.len() == M,
    ensures
        ring_mul(ring_mul(a, b), c) == ring_mul(a, ring_mul(b, c)),
{
    lemma_assoc_prefix(a, b, c, M as int);
    assert(low_part(a, M as int) =~= a);
}

/// An element has an odd number of nonzero coefficients (its value at 1).
pub open spec fn odd_weight(a: Seq<bool>) -> bool {
    count_true(a) % 2 == 1
}

/// Parity of a pointwise exclusive or of two sequences of one length.
pub proof fn lemma_count_xor(x: Seq<bool>, y: Seq<bool>)
    requires
        x.len() == y.len(),
    ensures
        count_true(Seq::new(x.len(), |i: int| x[i] != y[i])) % 2 == (count_true(x) + count_true(y)) % 2,
    decreases x.len(),
{
    let z = Seq::new(x.len(), |i: int| x[i] != y[i]);
    if x.len() > 0 {
        let x2 = x.drop_last();
        let y2 = y.drop_last();
        lemma_count_xor(x2, y2);
        assert(z.drop_last() =~= Seq::new(x2.len(), |i: int| x2[i] != y2[i]));
    } else {
        assert(z.len() == 0);
    }
}

/// Rotating by one keeps the number of ones.
proof fn lemma_count_rotate_one(b: Seq<bool>)
    requires
        b.len() == M,
    ensures
        count_true(rotate(b, 1)) == count_true(b),
{
    let m = M as int;
    let head = seq![b[m - 1]];
    let rest = b.take(m - 1);
    assert forall|i: int| 0 <= i < m implies rotate(b, 1)[i] == (head + rest)[i] by {
        if i == 0 {
            lemma_small_mod((m - 1) as nat, m as nat);
            lemma_sub_mod_noop_right(0, 1, m);
            assert((0 - 1) % m == m - 1) by {
                lemma_fundamental_div_mod_converse_mod(-1, m, -1, m - 1);
            }
        } else {
            lemma_small_mod((i - 1) as nat, m as nat);
        }
    }
    assert(rotate(b, 1) =~= head + rest);
    lemma_count_true_add(head, rest);
    assert(b =~= rest + seq![b[m - 1]]);
    lemma_count_true_add(rest, seq![b[m - 1]]);
    reveal_with_fuel(count_true, 2);
}

/// Rotating keeps the number of ones.
pub proof fn lemma_count_rotate(b: Seq<bool>, s: int)
    requires
        b.len() == M,
        0 <= s,
    ensures
        count_true(rotate(b, s)) == count_true(b),
    decreases s,
{
    if s == 0 {
        assert forall|i: int| 0 <= i < M implies rotate(b, 0)[i] == b[i] by {
            lemma_small_mod(i as nat, M as nat);
        }
        assert(rotate(b, 0) =~= b);
    } else {
        lemma_count_rotate(b, s - 1);
        let r = rotate(b, s - 1);
        lemma_count_rotate_one(r);
        assert forall|i: int| 0 <= i < M implies rotate(r, 1)[i] == rotate(b, s)[i] by {
            lemma_mod_bound(i - 1, M as int);
            lemma_sub_mod_noop(i - 1, s - 1, M as int);
            lemma_sub_mod_noop_right(i - 1, s - 1, M as int);
            lemma_small_mod(((i - 1) % (M as int)) as nat, M as nat);
        }
        assert(rotate(r, 1) =~= rotate(b, s));
    }
}

proof fn lemma_parity_prefix(a: Seq<bool>, b: Seq<bool>, n: int)
    requires
        b.len() == M,
        0 <= n <= M,
    ensures
        odd_weight(ring_mul(low_part(a, n), b)) == (odd_weight(low_part(a, n)) && odd_weight(b)),
    decreases n,
{
    if n == 0 {
        assert(low_part(a, 0) =~= ring_zero());
        lemma_ring_mul_zero(b);
        lemma_count_true_zero(ring_zero());
    } else {
        let p = n - 1;
        lemma_parity_prefix(a, b, p);
        lemma_low_part_step(a, b, p);
        let x = ring_mul(low_part(a, p), b);
        let y = if a[p] {
            rotate(b, p)
        } else {
            ring_zero()
        };
        assert(ring_add(x, y) =~= Seq::new(x.len(), |i: int| x[i] != y[i]));
        lemma_count_xor(x, y);
        if a[p] {
            lemma_count_rotate(b, p);
            assert(low_part(a, n) =~= low_part(a, p).update(p, true));
            lemma_count_true_set(low_part(a, p), p);
        } else {
            lemma_count_true_zero(ring_zero());
            assert(low_part(a, n) =~= low_part(a, p));
        }
    }
}

/// The parity of the number of ones is multiplicative (evaluation at 1 is a
/// ring homomorphism).
pub proof fn lemma_ring_mul_odd_weight(a: Seq<bool>, b: Seq<bool>)
    requires
        a.len() == M,
        b.len() == M,
    ensures
        odd_weight(ring_mul(a, b)) == (odd_weight(a) && odd_weight(b)),
{
    lemma_parity_prefix(a, b, M as int);
    assert(low_part(a, M as int) =~= a);
}

/// Only elements of odd weight are units: if `a * b == 1` then `a` (and `b`)
/// have an odd number of ones.
pub proof fn lemma_unit_odd_weight(a: Seq<bool>, b: Seq<bool>)
    requires
        a.len() == M,
        b.len() == M,
        ring_mul(a, b) == ring_one(),
    ensures
        odd_weight(a),
        odd_weight(b),
{
    lemma_ring_mul_odd_weight(a, b);
    let z = seq![0usize];
    assert forall|i: int| 0 <= i < M implies Seq::new(M as nat, |i: int| z.contains(i as usize))[i]
        == ring_one()[i] by {
        if i == 0 {
            assert(z[0] == 0usize);
        }
    }
    assert(Seq::new(M as nat, |i: int| z.contains(i as usize)) =~= ring_one());
    lemma_count_positions(z);
}

} // verus!

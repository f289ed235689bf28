//! Key generation: secret blocks `h0`, `h1` derived from a seed, public key
//! `p = h0^-1 * h1`, with heuristic screening of weak keys (4-cycles, small
//! trapping sets, trial decodings).

use vstd::prelude::*;
use crate::bits::count_true;
use crate::decoder::{bgf_run, decode, hits, syndrome};
use crate::error::{ArcError, ArcResult};
use crate::kem::{error_draws_valid, error_from_draws, generate_error_with};
use crate::matrix::Circulant;
use crate::parameters::{DFR_TRIALS, ERROR_WEIGHT, M, MAX_ITER, SEED_BYTES};
use crate::polynomial::Polynomial;
use crate::primitives::{describe_entropy_error, fill_os_entropy, zeroize_array};
use crate::source::{draws_since, extends, RandomSource, ThreadSource};
use crate::ring::{
    lemma_ones_prefix_shape, lemma_ring_mul_associative, lemma_ring_mul_commutative,
    lemma_ring_mul_one, ones_prefix, ring_mul, ring_one,
};
use crate::units::{lemma_odd_weight_unit, ring_inverse};
use crate::utils::{check_girth, derive_secret_polynomials, derived_poly, has_four_cycle, lemma_derived_weight};

verus! {

/// A key pair: the secret seed and the public key.
#[derive(Debug)]
pub struct KeyPair {
    pub seed: [u8; SEED_BYTES],
    pub public: Polynomial,
}

impl Drop for KeyPair {
    /// Wipes the secret seed when the key pair goes out of scope.
    fn drop(&mut self)
        opens_invariants none
        no_unwind
    {
        zeroize_array(&mut self.seed);
    }
}

/// `h` has a multiplicative inverse in R.
pub open spec fn invertible(h: Seq<bool>) -> bool {
    exists|inv: Seq<bool>| inv.len() == M && #[trigger] ring_mul(h, inv) == ring_one()
}

/// `public` is the public key of `seed`: `h0 * public == h1` for the seed's
/// secret blocks, with `h0` invertible (so `public == h0^-1 * h1`).
pub open spec fn public_key_of(seed: Seq<u8>, public: Seq<bool>) -> bool {
    &&& public.len() == M
    &&& invertible(derived_poly(seed, 0))
    &&& ring_mul(derived_poly(seed, 0), public) == derived_poly(seed, 1)
}

/// The public key is determined by the secret blocks: two solutions of
/// `h0 * p == h1` with `h0` invertible are equal.
pub proof fn lemma_public_key_unique(h0: Seq<bool>, h1: Seq<bool>, p1: Seq<bool>, p2: Seq<bool>)
    requires
        h0.len() == M,
        p1.len() == M,
        p2.len() == M,
        invertible(h0),
        ring_mul(h0, p1) == h1,
        ring_mul(h0, p2) == h1,
    ensures
        p1 == p2,
{
    let inv = choose|inv: Seq<bool>| inv.len() == M && #[trigger] ring_mul(h0, inv) == ring_one();
    lemma_ring_mul_commutative(h0, inv);
    lemma_ring_mul_associative(inv, h0, p1);
    lemma_ring_mul_associative(inv, h0, p2);
    lemma_ring_mul_one(p1);
    lemma_ring_mul_one(p2);
}

/// The shift `(p1 - p2) mod M` between two variable nodes.
pub open spec fn pair_shift(p1: int, p2: int) -> int {
    (M + p1 - p2) % (M as int)
}

/// Ones `i` and `j` of `h` lie on at least three common check nodes.
pub open spec fn dense_pair(h: Seq<bool>, i: int, j: int) -> bool {
    let ones = ones_prefix(h, M as int);
    hits(h, ones, pair_shift(ones[i] as int, ones[j] as int)) >= 3
}

/// At the shift `o1[j] - o0[i]` that takes one `i` of `h0` onto one `j` of
/// `h1`, at least three ones of `h0` land on ones of `h1`: two variable
/// nodes, one in each block, share at least three check nodes.
pub open spec fn dense_cross(h0: Seq<bool>, h1: Seq<bool>, i: int, j: int) -> bool {
    let o0 = ones_prefix(h0, M as int);
    let o1 = ones_prefix(h1, M as int);
    hits(h1, o0, pair_shift(o1[j] as int, o0[i] as int)) >= 3
}

/// Some pair of distinct ones of `h` is dense.
pub open spec fn has_dense_pair(h: Seq<bool>) -> bool {
    exists|i: int, j: int| 0 <= i < j < ones_prefix(h, M as int).len() && #[trigger] dense_pair(h, i, j)
}

/// The Tanner graph of `[h0 | h1]` has a small trapping set structure: a
/// pair of variable nodes (within a block or across the blocks) sharing at
/// least three check nodes.
pub open spec fn small_trapping_sets(h0: Seq<bool>, h1: Seq<bool>) -> bool {
    ||| has_dense_pair(h0)
    ||| has_dense_pair(h1)
    ||| exists|i: int, j: int|
        0 <= i < ones_prefix(h0, M as int).len() && 0 <= j < ones_prefix(h1, M as int).len()
            && #[trigger] dense_cross(h0, h1, i, j)
}

/// `h` has girth above four in the sense of the girth check.
pub open spec fn girth_ok(h: Seq<bool>) -> bool {
    ones_prefix(h, M as int).len() < 3 || !has_four_cycle(ones_prefix(h, M as int), h)
}

/// A prefix never counts more hits than the whole list.
proof fn lemma_hits_prefix(d: Seq<bool>, s: Seq<usize>, j: int, t: int)
    requires
        0 <= t <= s.len(),
    ensures
        hits(d, s.take(t), j) <= hits(d, s, j),
    decreases s.len(),
{
    if t < s.len() {
        lemma_hits_prefix(d, s.drop_last(), j, t);
        assert(s.drop_last().take(t) =~= s.take(t));
    } else {
        assert(s.take(t) =~= s);
    }
}

/// Whether at least three entries `p` of `ones` have `h[p + shift mod M]` set;
/// stops counting at three.
fn shared_reaches_three(ones: &[usize], h: &Polynomial, shift: usize) -> (r: bool)
    requires
        shift < M,
        forall|t: int| 0 <= t < ones@.len() ==> #[trigger] ones@[t] < M,
    ensures
        r == (hits(h@, ones@, shift as int) >= 3),
{
    let mut shared: usize = 0;
    let mut t: usize = 0;
    while t < ones.len()
        invariant
            shift < M,
            t <= ones@.len(),
            forall|u: int| 0 <= u < ones@.len() ==> #[trigger] ones@[u] < M,
            shared == hits(h@, ones@.take(t as int), shift as int),
            shared < 3,
        decreases ones@.len() - t,
    {
        let p = ones[t];
        let target = (p + shift) % M;
        proof {
            assert(ones@.take(t + 1).drop_last() =~= ones@.take(t as int));
            assert(ones@.take(t + 1).last() == p);
        }
        if h.get_bit(target) == 1 {
            shared = shared + 1;
            if shared >= 3 {
                proof {
                    lemma_hits_prefix(h@, ones@, shift as int, t + 1);
                }
                return true;
            }
        }
        t = t + 1;
    }
    proof {
        assert(ones@.take(t as int) =~= ones@);
    }
    false
}

/// Whether two distinct ones of `h` share at least three check nodes.
fn any_dense_pair(ones: &[usize], h: &Polynomial) -> (r: bool)
    requires
        ones@ == ones_prefix(h@, M as int),
        h@.len() == M,
    ensures
        r == has_dense_pair(h@),
{
    proof {
        lemma_ones_prefix_shape(h@, M as int);
    }
    let n = ones.len();
    let mut i: usize = 0;
    while i < n
        invariant
            n == ones@.len(),
            ones@ == ones_prefix(h@, M as int),
            forall|t: int| 0 <= t < ones@.len() ==> #[trigger] ones@[t] < M,
            forall|a: int, b: int| 0 <= a < i && a < b < n ==> !#[trigger] dense_pair(h@, a, b),
        decreases n - i,
    {
        let mut j: usize = i + 1;
        while j < n
            invariant
                n == ones@.len(),
                i < n,
                i < j <= n || j == i + 1,
                ones@ == ones_prefix(h@, M as int),
                forall|t: int| 0 <= t < ones@.len() ==> #[trigger] ones@[t] < M,
                forall|a: int, b: int| 0 <= a < i && a < b < n ==> !#[trigger] dense_pair(h@, a, b),
                forall|b: int| i < b < j ==> !#[trigger] dense_pair(h@, i as int, b),
            decreases n - j,
        {
            let p1 = ones[i];
            let p2 = ones[j];
            let shift = (M + p1 - p2) % M;
            if shared_reaches_three(ones, h, shift) {
                proof {
                    assert(dense_pair(h@, i as int, j as int));
                }
                return true;
            }
            j = j + 1;
        }
        i = i + 1;
    }
    false
}

/// Whether a one of `h0` and a one of `h1` share at least three check nodes.
fn any_dense_cross(ones_h0: &[usize], ones_h1: &[usize], h0: &Polynomial, h1: &Polynomial) -> (r: bool)
    requires
        ones_h0@ == ones_prefix(h0@, M as int),
        ones_h1@ == ones_prefix(h1@, M as int),
        h0@.len() == M,
        h1@.len() == M,
    ensures
        r == exists|i: int, j: int|
            0 <= i < ones_h0@.len() && 0 <= j < ones_h1@.len() && #[trigger] dense_cross(h0@, h1@, i, j),
{
    proof {
        lemma_ones_prefix_shape(h0@, M as int);
        lemma_ones_prefix_shape(h1@, M as int);
    }
    let n0 = ones_h0.len();
    let n1 = ones_h1.len();
    let mut i: usize = 0;
    while i < n0
        invariant
            n0 == ones_h0@.len(),
            n1 == ones_h1@.len(),
            ones_h0@ == ones_prefix(h0@, M as int),
            ones_h1@ == ones_prefix(h1@, M as int),
            forall|t: int| 0 <= t < ones_h0@.len() ==> #[trigger] ones_h0@[t] < M,
            forall|t: int| 0 <= t < ones_h1@.len() ==> #[trigger] ones_h1@[t] < M,
            forall|a: int, b: int| 0 <= a < i && 0 <= b < n1 ==> !#[trigger] dense_cross(h0@, h1@, a, b),
        decreases n0 - i,
    {
        let mut j: usize = 0;
        while j < n1
            invariant
                n0 == ones_h0@.len(),
                n1 == ones_h1@.len(),
                i < n0,
                j <= n1,
                ones_h0@ == ones_prefix(h0@, M as int),
                ones_h1@ == ones_prefix(h1@, M as int),
                forall|t: int| 0 <= t < ones_h0@.len() ==> #[trigger] ones_h0@[t] < M,
                forall|t: int| 0 <= t < ones_h1@.len() ==> #[trigger] ones_h1@[t] < M,
                forall|a: int, b: int| 0 <= a < i && 0 <= b < n1 ==> !#[trigger] dense_cross(h0@, h1@, a, b),
                forall|b: int| 0 <= b < j ==> !#[trigger] dense_cross(h0@, h1@, i as int, b),
            decreases n1 - j,
        {
            let p1 = ones_h0[i];
            let p2 = ones_h1[j];
            let shift = (M + p2 - p1) % M;
            if shared_reaches_three(ones_h0, h1, shift) {
                proof {
                    assert(dense_cross(h0@, h1@, i as int, j as int));
                }
                return true;
            }
            j = j + 1;
        }
        i = i + 1;
    }
    false
}

/// Screens the Tanner graph of `[h0 | h1]` for small trapping set
/// structures: pairs of variable nodes sharing at least three check nodes,
/// within `h0`, within `h1`, and across the two blocks.
fn has_small_trapping_sets(h0: &Polynomial, h1: &Polynomial) -> (r: bool)
    requires
        h0@.len() == M,
        h1@.len() == M,
    ensures
        r == small_trapping_sets(h0@, h1@),
{
    let ones_h0 = h0.positions_of_ones();
    let ones_h1 = h1.positions_of_ones();
    if any_dense_pair(ones_h0.as_slice(), h0) {
        return true;
    }
    if any_dense_pair(ones_h1.as_slice(), h1) {
        return true;
    }
    any_dense_cross(ones_h0.as_slice(), ones_h1.as_slice(), h0, h1)
}

/// The weak-key screens pass on the blocks `h0`, `h1`: no 4-cycle in either
/// block and no small trapping set structure.
pub open spec fn screens_pass(h0: Seq<bool>, h1: Seq<bool>) -> bool {
    girth_ok(h0) && girth_ok(h1) && !small_trapping_sets(h0, h1)
}

/// The decoder, run on the syndrome of the error `(e0, e1)`, returns that error.
pub open spec fn trial_recovers(h0: Seq<bool>, h1: Seq<bool>, e0: Seq<bool>, e1: Seq<bool>) -> bool {
    let st = bgf_run(syndrome(h0, h1, e0, e1), h0, h1, MAX_ITER as int);
    st.0 == e0 && st.1 == e1
}

/// What `left` trial decodings with the drawn values `s` give: each trial
/// takes the error that the next `ERROR_WEIGHT` drawn indices select and
/// decodes its syndrome. `Some(true)` when every trial recovers its error,
/// `Some(false)` when one does not (the trials stop there), and `None` when
/// `s` is not exactly what such a run draws.
pub open spec fn trials_from_draws(h0: Seq<bool>, h1: Seq<bool>, s: Seq<int>, left: int) -> Option<bool>
    decreases left,
{
    if left <= 0 {
        if s.len() == 0 {
            Some(true)
        } else {
            None
        }
    } else if s.len() < ERROR_WEIGHT || !error_draws_valid(s.take(ERROR_WEIGHT as int)) {
        None
    } else {
        let e = error_from_draws(s.take(ERROR_WEIGHT as int));
        if trial_recovers(h0, h1, e.0, e.1) {
            trials_from_draws(h0, h1, s.skip(ERROR_WEIGHT as int), left - 1)
        } else if s.len() == ERROR_WEIGHT {
            Some(false)
        } else {
            None
        }
    }
}

/// The deterministic weak-key screens: `Ok` exactly when both blocks pass the
/// girth check (no 4-cycle) and no small trapping set is found.
pub fn screen_key(h0: &Polynomial, h1: &Polynomial) -> (r: ArcResult<()>)
    requires
        h0@.len() == M,
        h1@.len() == M,
    ensures
        r is Ok <==> screens_pass(h0@, h1@),
        r matches Err(e) ==> e is KeyGenError,
{
    if !check_girth(h0, 8) || !check_girth(h1, 8) {
        return Err(ArcError::KeyGenError);
    }
    if has_small_trapping_sets(h0, h1) {
        return Err(ArcError::KeyGenError);
    }
    Ok(())
}

/// One trial decoding: the syndrome of the drawn error `(e0, e1)` is decoded
/// and the trial passes when the decoder converges on exactly that error.
pub fn dfr_trial(h0: &Circulant, h1: &Circulant, e0: &Polynomial, e1: &Polynomial) -> (ok: bool)
    requires
        e0@.len() == M,
        e1@.len() == M,
    ensures
        ok == trial_recovers(h0@, h1@, e0@, e1@),
{
    let syndrome_p = h0.compute_syndrome(e0).add(&h1.compute_syndrome(e1));
    proof {
        assert(syndrome_p@ =~= syndrome(h0@, h1@, e0@, e1@));
    }
    let (d0, d1, converged) = decode(&syndrome_p, h0, h1);
    let ok = converged && d0.equals(e0) && d1.equals(e1);
    proof {
        if d0@ == e0@ && d1@ == e1@ {
            assert(converged);
        }
    }
    ok
}

/// `DFR_TRIALS` trial decodings of errors drawn from `rng`; stops at the
/// first error that is not recovered.
pub fn dfr_trials<R: RandomSource>(h0: &Circulant, h1: &Circulant, rng: &mut R) -> (ok: bool)
    ensures
        extends(old(rng).drawn(), final(rng).drawn()),
        trials_from_draws(h0@, h1@, draws_since(old(rng).drawn(), final(rng).drawn()), DFR_TRIALS as int)
            == Some(ok),
{
    let ghost d0 = rng.drawn();
    let ghost mut acc: Seq<int> = Seq::empty();
    let mut trial: usize = 0;
    while trial < DFR_TRIALS
        invariant
            trial <= DFR_TRIALS,
            d0 == old(rng).drawn(),
            rng.drawn() == d0 + acc,
            forall|q: Seq<int>| #[trigger] trials_from_draws(h0@, h1@, acc + q, DFR_TRIALS as int)
                == trials_from_draws(h0@, h1@, q, DFR_TRIALS - trial),
        decreases DFR_TRIALS - trial,
    {
        let ghost before = rng.drawn();
        let (e0, e1) = generate_error_with(rng);
        let ghost c = draws_since(before, rng.drawn());
        let ok = dfr_trial(h0, h1, &e0, &e1);
        proof {
            assert(rng.drawn() =~= before + c);
            assert forall|q: Seq<int>| #[trigger] trials_from_draws(h0@, h1@, (acc + c) + q, DFR_TRIALS as int)
                == trials_from_draws(h0@, h1@, c + q, DFR_TRIALS - trial) by {
                assert((acc + c) + q =~= acc + (c + q));
                assert(trials_from_draws(h0@, h1@, acc + (c + q), DFR_TRIALS as int)
                    == trials_from_draws(h0@, h1@, c + q, DFR_TRIALS - trial));
            }
            assert forall|q: Seq<int>| #[trigger] trials_from_draws(h0@, h1@, c + q, DFR_TRIALS - trial)
                == (if ok { trials_from_draws(h0@, h1@, q, DFR_TRIALS - trial - 1) } else if q.len() == 0 {
                Some(false)
            } else {
                None
            }) by {
                assert((c + q).take(ERROR_WEIGHT as int) =~= c);
                assert((c + q).skip(ERROR_WEIGHT as int) =~= q);
            }
        }
        if !ok {
            proof {
                let e = Seq::<int>::empty();
                assert(before == d0 + acc);
                assert(rng.drawn() =~= d0 + (acc + c));
                assert((acc + c) + e =~= acc + c);
                assert(c + e =~= c);
                assert(trials_from_draws(h0@, h1@, (acc + c) + e, DFR_TRIALS as int)
                    == trials_from_draws(h0@, h1@, c + e, DFR_TRIALS - trial));
                assert(trials_from_draws(h0@, h1@, c + e, DFR_TRIALS - trial) == Some(false));
                assert(draws_since(d0, rng.drawn()) =~= acc + c);
                assert(rng.drawn().take(d0.len() as int) =~= d0);
                assert(extends(d0, rng.drawn()));
                assert(trials_from_draws(h0@, h1@, draws_since(d0, rng.drawn()), DFR_TRIALS as int) == Some(false));
            }
            return false;
        }
        proof {
            acc = acc + c;
        }
        trial = trial + 1;
    }
    proof {
        assert(acc + Seq::<int>::empty() =~= acc);
        assert(trials_from_draws(h0@, h1@, acc + Seq::<int>::empty(), DFR_TRIALS as int)
            == trials_from_draws(h0@, h1@, Seq::<int>::empty(), 0));
        assert(draws_since(d0, rng.drawn()) =~= acc);
        assert(rng.drawn().take(d0.len() as int) =~= d0);
    }
    true
}

/// Draws a seed from the operating system and derives a screened key pair from it.
pub fn generate() -> (r: ArcResult<KeyPair>)
    ensures
        r matches Ok(kp) ==> public_key_of(kp.seed@, kp.public@) && screens_pass(
            derived_poly(kp.seed@, 0),
            derived_poly(kp.seed@, 1),
        ) && exists|s: Seq<int>| #[trigger]
            trials_from_draws(derived_poly(kp.seed@, 0), derived_poly(kp.seed@, 1), s, DFR_TRIALS as int)
                == Some(true),
        r matches Err(e) ==> e is RngError || e is KeyGenError,
{
    let mut seed = [0u8; SEED_BYTES];
    match fill_os_entropy(&mut seed) {
        Ok(()) => {},
        Err(e) => {
            return Err(ArcError::RngError(describe_entropy_error(&e)));
        },
    }
    from_seed_with_check(seed)
}

/// Derives the screened key pair of `seed`.
pub fn from_seed(seed: [u8; SEED_BYTES]) -> (r: ArcResult<KeyPair>)
    ensures
        r matches Ok(kp) ==> kp.seed == seed && public_key_of(seed@, kp.public@),
        r is Ok ==> screens_pass(derived_poly(seed@, 0), derived_poly(seed@, 1)),
        !screens_pass(derived_poly(seed@, 0), derived_poly(seed@, 1)) ==> r is Err,
        screens_pass(derived_poly(seed@, 0), derived_poly(seed@, 1)) ==> exists|s: Seq<int>| #[trigger]
            trials_from_draws(derived_poly(seed@, 0), derived_poly(seed@, 1), s, DFR_TRIALS as int) == Some(
                r is Ok,
            ),
        r matches Err(e) ==> e is KeyGenError,
{
    from_seed_with_check(seed)
}

/// Every seed has a public key: its first secret block has odd weight
/// (`ROW_WEIGHT` ones), so it is invertible in R.
pub proof fn lemma_derived_invertible(seed: Seq<u8>)
    ensures
        invertible(derived_poly(seed, 0)),
{
    let h0 = derived_poly(seed, 0);
    lemma_derived_weight(seed, 0);
    lemma_odd_weight_unit(h0);
    assert(ring_inverse(h0).len() == M && ring_mul(h0, ring_inverse(h0)) == ring_one());
}

/// Derives the key pair of `seed` without any screening; never fails.
pub fn from_seed_without_dfr(seed: [u8; SEED_BYTES]) -> (r: ArcResult<KeyPair>)
    ensures
        r matches Ok(kp) && kp.seed == seed && public_key_of(seed@, kp.public@),
{
    let (h0, h1) = match derive_secret_polynomials(&seed) {
        Ok(p) => p,
        Err(e) => return Err(e),
    };
    proof {
        lemma_derived_weight(seed@, 0);
    }
    let h0_inv = match h0.invert() {
        Some(inv) => inv,
        None => return Err(ArcError::KeyGenError),
    };
    let public = h0_inv.multiply(&h1);
    proof {
        h0.lemma_view();
        h1.lemma_view();
        h0_inv.lemma_view();
        lemma_public_from_inverse(h0@, h1@, h0_inv@);
    }
    Ok(KeyPair { seed, public })
}

/// With `h0 * inv == 1`, the product `inv * h1` solves `h0 * p == h1`.
proof fn lemma_public_from_inverse(h0: Seq<bool>, h1: Seq<bool>, inv: Seq<bool>)
    requires
        h0.len() == M,
        h1.len() == M,
        inv.len() == M,
        ring_mul(h0, inv) == ring_one(),
    ensures
        ring_mul(h0, ring_mul(inv, h1)) == h1,
        invertible(h0),
{
    lemma_ring_mul_associative(h0, inv, h1);
    lemma_ring_mul_one(h1);
}

/// Derivation, inversion, then the weak-key screens: girth, trapping sets
/// and `DFR_TRIALS` trial decodings of random errors.
fn from_seed_with_check(seed: [u8; SEED_BYTES]) -> (r: ArcResult<KeyPair>)
    ensures
        r matches Ok(kp) ==> kp.seed == seed && public_key_of(seed@, kp.public@),
        r is Ok ==> screens_pass(derived_poly(seed@, 0), derived_poly(seed@, 1)),
        !screens_pass(derived_poly(seed@, 0), derived_poly(seed@, 1)) ==> r is Err,
        screens_pass(derived_poly(seed@, 0), derived_poly(seed@, 1)) ==> exists|s: Seq<int>| #[trigger]
            trials_from_draws(derived_poly(seed@, 0), derived_poly(seed@, 1), s, DFR_TRIALS as int) == Some(
                r is Ok,
            ),
        r matches Err(e) ==> e is KeyGenError,
{
    let (h0, h1) = match derive_secret_polynomials(&seed) {
        Ok(p) => p,
        Err(e) => return Err(e),
    };
    proof {
        lemma_derived_weight(seed@, 0);
        lemma_derived_weight(seed@, 1);
    }
    let h0_inv = match h0.invert() {
        Some(inv) => inv,
        None => return Err(ArcError::KeyGenError),
    };
    let public = h0_inv.multiply(&h1);
    proof {
        h0.lemma_view();
        h1.lemma_view();
        h0_inv.lemma_view();
        lemma_public_from_inverse(h0@, h1@, h0_inv@);
    }
    match screen_key(&h0, &h1) {
        Ok(()) => {},
        Err(e) => return Err(e),
    }
    let h0_circ = Circulant::new(h0);
    let h1_circ = Circulant::new(h1);
    let mut rng = ThreadSource::new();
    let ok = dfr_trials(&h0_circ, &h1_circ, &mut rng);
    proof {
        let ghost s = draws_since(Seq::<int>::empty(), rng.drawn());
        assert(trials_from_draws(derived_poly(seed@, 0), derived_poly(seed@, 1), s, DFR_TRIALS as int) == Some(ok));
    }
    if !ok {
        return Err(ArcError::KeyGenError);
    }
    Ok(KeyPair { seed, public })
}

} // verus!

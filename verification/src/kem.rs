//! Niederreiter key encapsulation over the QC-MDPC code, with implicit
//! rejection: decapsulation never reports failure, it answers a key derived
//! from the secret seed and the ciphertext instead.

use vstd::prelude::*;
use crate::bits::{
    lemma_bit_zero, lemma_byte_facts, lemma_byte_select, lemma_mask_from_bit,
    bytes_to_bits, count_true, lemma_bytes_to_bits_injective, lemma_count_true_add, lemma_count_true_le,
    lemma_count_true_set, lemma_count_true_zero,
};
use crate::decoder::{bgf_run, decode, lemma_decode_zero_syndrome, syndrome};
use crate::error::ArcResult;
use crate::matrix::Circulant;
use crate::parameters::{ERROR_WEIGHT, M, MAX_ITER, PUBKEY_BYTES, SEED_BYTES, SESSION_KEY_BYTES, SYNDROME_BYTES};
use crate::polynomial::Polynomial;
use crate::primitives::{blake3_digest, blake3_hash};
use crate::source::{draws_since, extends, lemma_shuffled_facts, shuffle_choice, shuffle_draws_valid, shuffled, OsSource, RandomSource};
use crate::ring::{
    lemma_ring_mul_associative, lemma_ring_mul_commutative, lemma_ring_mul_distributes,
    lemma_ring_mul_zero, ring_add, ring_mul, ring_zero,
};
use crate::utils::{derive_secret_polynomials, derived_poly};
use vstd::slice::slice_subrange;

verus! {

/// A ciphertext: the packed syndrome `e0 + e1 * p`.
#[derive(Clone)]
pub struct KemCiphertext {
    pub syndrome: [u8; SYNDROME_BYTES],
}

/// The bytes of the domain tag `ARCB-KEM-KEY-V1`.
pub open spec fn kem_key_tag() -> Seq<u8> {
    seq![65u8, 82, 67, 66, 45, 75, 69, 77, 45, 75, 69, 89, 45, 86, 49]
}

/// The bytes of the domain tag `ARCB-KEM-REJ-V1`.
pub open spec fn kem_reject_tag() -> Seq<u8> {
    seq![65u8, 82, 67, 66, 45, 75, 69, 77, 45, 82, 69, 74, 45, 86, 49]
}

/// The packed form (eight coefficients per byte, lowest first) of M coefficients.
pub open spec fn pack(bits: Seq<bool>) -> Seq<u8> {
    choose|b: Seq<u8>| b.len() == PUBKEY_BYTES && bytes_to_bits(b) == bits
}

/// The packed bytes of a polynomial are `pack` of its coefficients.
pub proof fn lemma_pack(p: Polynomial)
    ensures
        pack(p@) == p.bytes(),
{
    p.lemma_view();
    let b = pack(p@);
    assert(p.bytes().len() == PUBKEY_BYTES && bytes_to_bits(p.bytes()) == p@);
    lemma_bytes_to_bits_injective(b, p.bytes());
}

/// What the session key of an error `(e0, e1)` hashes.
pub open spec fn kem_key_input(e0: Seq<bool>, e1: Seq<bool>) -> Seq<u8> {
    kem_key_tag() + pack(e0) + pack(e1)
}

/// The error `(e0, e1)` of weight `ERROR_WEIGHT` yields the packed syndrome
/// `syn` and the session key `key` under the public key `pk`.
pub open spec fn encapsulates(pk: Seq<bool>, syn: Seq<u8>, key: Seq<u8>, e0: Seq<bool>, e1: Seq<bool>) -> bool {
    &&& e0.len() == M
    &&& e1.len() == M
    &&& count_true(e0) + count_true(e1) == ERROR_WEIGHT
    &&& bytes_to_bits(syn) == ring_add(e0, ring_mul(e1, pk))
    &&& key == blake3_digest(kem_key_input(e0, e1))
}

/// The key that decapsulation answers for the packed syndrome `ct`, secret
/// blocks `h0`, `h1` and seed `seed`: the key of the decoded error when the
/// decoder's output reproduces the syndrome and has weight `ERROR_WEIGHT`,
/// otherwise the rejection key of seed and ciphertext.
pub open spec fn kem_key_for(seed: Seq<u8>, h0: Seq<bool>, h1: Seq<bool>, ct: Seq<u8>) -> Seq<u8> {
    let target = ring_mul(h0, bytes_to_bits(ct));
    let st = bgf_run(target, h0, h1, MAX_ITER as int);
    if syndrome(h0, h1, st.0, st.1) == target && count_true(st.0) + count_true(st.1) == ERROR_WEIGHT {
        blake3_digest(kem_key_input(st.0, st.1))
    } else {
        blake3_digest(kem_reject_tag() + seed + ct)
    }
}

/// Decapsulation accepts only errors of weight `ERROR_WEIGHT`: whatever the
/// ciphertext, the key answered is the rejection key of seed and ciphertext,
/// or the session key of an error of weight `ERROR_WEIGHT` whose syndrome
/// under `(h0, h1)` is `h0` times the ciphertext's syndrome.
pub proof fn lemma_decapsulation_accepts_only_full_weight(seed: Seq<u8>, h0: Seq<bool>, h1: Seq<bool>, ct: Seq<u8>)
    ensures
        kem_key_for(seed, h0, h1, ct) == blake3_digest(kem_reject_tag() + seed + ct) || exists|
            e0: Seq<bool>,
            e1: Seq<bool>,
        |
            #![trigger kem_key_input(e0, e1)]
            count_true(e0) + count_true(e1) == ERROR_WEIGHT && syndrome(h0, h1, e0, e1) == ring_mul(
                h0,
                bytes_to_bits(ct),
            ) && kem_key_for(seed, h0, h1, ct) == blake3_digest(kem_key_input(e0, e1)),
{
    let target = ring_mul(h0, bytes_to_bits(ct));
    let st = bgf_run(target, h0, h1, MAX_ITER as int);
    if syndrome(h0, h1, st.0, st.1) == target && count_true(st.0) + count_true(st.1) == ERROR_WEIGHT {
        assert(kem_key_for(seed, h0, h1, ct) == blake3_digest(kem_key_input(st.0, st.1)));
    }
}

/// A ciphertext whose decoded error does not have weight `ERROR_WEIGHT` is
/// answered with the rejection key, whatever the decoded error is.
pub proof fn lemma_decapsulation_rejects_wrong_weight(seed: Seq<u8>, h0: Seq<bool>, h1: Seq<bool>, ct: Seq<u8>)
    requires
        count_true(bgf_run(ring_mul(h0, bytes_to_bits(ct)), h0, h1, MAX_ITER as int).0) + count_true(
            bgf_run(ring_mul(h0, bytes_to_bits(ct)), h0, h1, MAX_ITER as int).1,
        ) != ERROR_WEIGHT,
    ensures
        kem_key_for(seed, h0, h1, ct) == blake3_digest(kem_reject_tag() + seed + ct),
{
}

/// The Niederreiter trapdoor: with `h0 * p == h1`, multiplying the syndrome
/// `e0 + e1 * p` by `h0` gives the syndrome of `(e0, e1)` under `(h0, h1)`.
pub proof fn lemma_trapdoor(h0: Seq<bool>, h1: Seq<bool>, pk: Seq<bool>, e0: Seq<bool>, e1: Seq<bool>)
    requires
        h0.len() == M,
        ring_mul(h0, pk) == h1,
    ensures
        ring_mul(h0, ring_add(e0, ring_mul(e1, pk))) == syndrome(h0, h1, e0, e1),
{
    let x = ring_mul(e1, pk);
    lemma_ring_mul_commutative(h0, ring_add(e0, x));
    lemma_ring_mul_distributes(e0, x, h0);
    lemma_ring_mul_commutative(e0, h0);
    lemma_ring_mul_commutative(x, h0);
    lemma_ring_mul_commutative(e1, pk);
    lemma_ring_mul_associative(h0, pk, e1);
}

/// Encapsulation is determined by the error drawn: two encapsulations to
/// one public key with the same error give the same ciphertext and the same
/// key, whichever entry point made them.
pub proof fn lemma_encapsulation_determined(
    pk: Seq<bool>,
    e0: Seq<bool>,
    e1: Seq<bool>,
    syn1: Seq<u8>,
    key1: Seq<u8>,
    syn2: Seq<u8>,
    key2: Seq<u8>,
)
    requires
        syn1.len() == SYNDROME_BYTES,
        syn2.len() == SYNDROME_BYTES,
        encapsulates(pk, syn1, key1, e0, e1),
        encapsulates(pk, syn2, key2, e0, e1),
    ensures
        syn1 == syn2,
        key1 == key2,
{
    lemma_bytes_to_bits_injective(syn1, syn2);
}

/// Decapsulation recovers the encapsulated key whenever the decoder, run on
/// the syndrome of the encapsulated error, returns that error.
pub proof fn lemma_kem_roundtrip(
    seed: Seq<u8>,
    h0: Seq<bool>,
    h1: Seq<bool>,
    pk: Seq<bool>,
    ct: Seq<u8>,
    key: Seq<u8>,
    e0: Seq<bool>,
    e1: Seq<bool>,
)
    requires
        h0.len() == M,
        ring_mul(h0, pk) == h1,
        encapsulates(pk, ct, key, e0, e1),
        bgf_run(syndrome(h0, h1, e0, e1), h0, h1, MAX_ITER as int).0 == e0,
        bgf_run(syndrome(h0, h1, e0, e1), h0, h1, MAX_ITER as int).1 == e1,
    ensures
        kem_key_for(seed, h0, h1, ct) == key,
{
    lemma_trapdoor(h0, h1, pk, e0, e1);
}

/// Implicit rejection of the zero ciphertext: whatever the key, it is
/// answered with the rejection key of seed and ciphertext (the decoder
/// returns the zero error, whose weight is not `ERROR_WEIGHT`).
pub proof fn lemma_zero_ciphertext_rejected(seed: Seq<u8>, h0: Seq<bool>, h1: Seq<bool>, ct: Seq<u8>)
    requires
        h0.len() == M,
        h1.len() == M,
        ct.len() == SYNDROME_BYTES,
        forall|i: int| 0 <= i < ct.len() ==> ct[i] == 0,
    ensures
        kem_key_for(seed, h0, h1, ct) == blake3_digest(kem_reject_tag() + seed + ct),
{
    assert forall|k: int| 0 <= k < M implies !#[trigger] bytes_to_bits(ct)[k] by {
        lemma_bit_zero((k % 8) as u8);
    }
    assert(bytes_to_bits(ct) =~= ring_zero());
    lemma_ring_mul_commutative(h0, ring_zero());
    lemma_ring_mul_zero(h0);
    lemma_decode_zero_syndrome(h0, h1, MAX_ITER as int);
    lemma_count_true_zero(ring_zero());
}

/// An all-ones byte for `true`, a zero byte for `false`.
pub(crate) fn byte_mask(flag: bool) -> (m: u8)
    ensures
        m == (if flag { 0xFFu8 } else { 0u8 }),
{
    let v: u64 = if flag { 1 } else { 0 };
    let m = 0u64.wrapping_sub(v) as u8;
    proof {
        lemma_mask_from_bit(v);
    }
    m
}

/// `(a & mask) | (b & !mask)` picks `a` under an all-ones mask and `b` under a zero mask.
pub(crate) proof fn lemma_select(a: u8, b: u8, mask: u8)
    requires
        mask == 0 || mask == 0xFF,
    ensures
        (a & mask) | (b & !mask) == (if mask == 0xFF { a } else { b }),
{
    lemma_byte_select(a, b, mask);
}

/// Byte-wise selection between two keys.
pub(crate) fn select_key(chosen: &[u8; SESSION_KEY_BYTES], reject: &[u8; SESSION_KEY_BYTES], mask: u8) -> (r: [u8; SESSION_KEY_BYTES])
    requires
        mask == 0 || mask == 0xFF,
    ensures
        r@ == (if mask == 0xFF { chosen@ } else { reject@ }),
{
    let mut key = [0u8; SESSION_KEY_BYTES];
    for i in 0..SESSION_KEY_BYTES
        invariant
            mask == 0 || mask == 0xFF,
            forall|j: int| 0 <= j < i ==> #[trigger] key@[j] == (if mask == 0xFF { chosen@[j] } else { reject@[j] }),
    {
        proof {
            lemma_select(chosen[i as int], reject[i as int], mask);
        }
        key[i] = (chosen[i] & mask) | (reject[i] & !mask);
    }
    proof {
        assert(key@ =~= (if mask == 0xFF { chosen@ } else { reject@ }));
    }
    key
}

/// The session key of an error: BLAKE3 of the tag and the two packed halves.
fn error_key(e0: &Polynomial, e1: &Polynomial) -> (r: [u8; SESSION_KEY_BYTES])
    ensures
        r@ == blake3_digest(kem_key_input(e0@, e1@)),
{
    let mut key_input: Vec<u8> = vec![65u8, 82, 67, 66, 45, 75, 69, 77, 45, 75, 69, 89, 45, 86, 49];
    key_input.extend_from_slice(e0.as_bytes().as_slice());
    key_input.extend_from_slice(e1.as_bytes().as_slice());
    proof {
        lemma_pack(*e0);
        lemma_pack(*e1);
        assert(key_input@ =~= kem_key_input(e0@, e1@));
    }
    blake3_hash(key_input.as_slice())
}

/// The ciphertext and session key of a given error `(e0, e1)`: the packed
/// syndrome `e0 + e1 * p` and BLAKE3 of the tag and the packed halves.
pub fn encapsulate_with_error(
    public_key: &Polynomial,
    e0: &Polynomial,
    e1: &Polynomial,
) -> (r: (KemCiphertext, [u8; SESSION_KEY_BYTES]))
    ensures
        bytes_to_bits(r.0.syndrome@) == ring_add(e0@, ring_mul(e1@, public_key@)),
        r.1@ == blake3_digest(kem_key_input(e0@, e1@)),
{
    let e1p = e1.multiply_ct(public_key);
    let syndrome_poly = e0.add(&e1p);
    let syndrome: [u8; SYNDROME_BYTES] = *syndrome_poly.as_bytes();
    let key = error_key(e0, e1);
    let ct = KemCiphertext { syndrome };
    proof {
        assert(bytes_to_bits(ct.syndrome@) =~= ring_add(e0@, ring_mul(e1@, public_key@)));
    }
    (ct, key)
}

/// Encapsulates to `public_key`: draws an error of weight `ERROR_WEIGHT`,
/// returns its syndrome `e0 + e1 * p` and the key derived from it.
pub fn encapsulate(public_key: &Polynomial) -> (r: (KemCiphertext, [u8; SESSION_KEY_BYTES]))
    ensures
        exists|js: Seq<int>| #[trigger] error_draws_valid(js) && encapsulates(
            public_key@,
            r.0.syndrome@,
            r.1@,
            error_from_draws(js).0,
            error_from_draws(js).1,
        ),
{
    let mut rng = OsSource::new();
    encapsulate_from(public_key, &mut rng)
}

/// Encapsulates to `public_key` with the error that the indices drawn from
/// `rng` select.
pub fn encapsulate_from<R: RandomSource>(public_key: &Polynomial, rng: &mut R) -> (r: (
    KemCiphertext,
    [u8; SESSION_KEY_BYTES],
))
    ensures
        extends(old(rng).drawn(), final(rng).drawn()),
        error_draws_valid(draws_since(old(rng).drawn(), final(rng).drawn())),
        encapsulates(
            public_key@,
            r.0.syndrome@,
            r.1@,
            error_from_draws(draws_since(old(rng).drawn(), final(rng).drawn())).0,
            error_from_draws(draws_since(old(rng).drawn(), final(rng).drawn())).1,
        ),
{
    let (e0, e1) = generate_error_with(rng);
    let r = encapsulate_with_error(public_key, &e0, &e1);
    proof {
        assert(encapsulates(public_key@, r.0.syndrome@, r.1@, e0@, e1@));
    }
    r
}

/// The rejection key: BLAKE3 of the tag, the seed and the ciphertext.
fn rejection_key(seed: &[u8; SEED_BYTES], ct: &KemCiphertext) -> (r: [u8; SESSION_KEY_BYTES])
    ensures
        r@ == blake3_digest(kem_reject_tag() + seed@ + ct.syndrome@),
{
    let mut input: Vec<u8> = vec![65u8, 82, 67, 66, 45, 75, 69, 77, 45, 82, 69, 74, 45, 86, 49];
    input.extend_from_slice(seed.as_slice());
    input.extend_from_slice(ct.syndrome.as_slice());
    proof {
        assert(input@ =~= kem_reject_tag() + seed@ + ct.syndrome@);
    }
    blake3_hash(input.as_slice())
}

/// Decapsulates with the seed's secret blocks; never fails.
pub fn decapsulate(seed: &[u8; SEED_BYTES], ct: &KemCiphertext) -> (r: ArcResult<[u8; SESSION_KEY_BYTES]>)
    ensures
        r matches Ok(k) && k@ == kem_key_for(seed@, derived_poly(seed@, 0), derived_poly(seed@, 1), ct.syndrome@),
{
    let (h0_poly, h1_poly) = match derive_secret_polynomials(seed) {
        Ok(p) => p,
        Err(e) => return Err(e),
    };
    let h0 = Circulant::new(h0_poly);
    let h1 = Circulant::new(h1_poly);
    decapsulate_with_polys(seed, &h0, &h1, ct)
}

/// Decapsulates with secret blocks computed beforehand; never fails.
pub fn decapsulate_cached(
    seed: &[u8; SEED_BYTES],
    h0: &Circulant,
    h1: &Circulant,
    ct: &KemCiphertext,
) -> (r: ArcResult<[u8; SESSION_KEY_BYTES]>)
    ensures
        r matches Ok(k) && k@ == kem_key_for(seed@, h0@, h1@, ct.syndrome@),
{
    decapsulate_with_polys(seed, h0, h1, ct)
}

/// Decoding, the re-encryption check and the branchless choice between the
/// decoded error's key and the rejection key.
fn decapsulate_with_polys(
    seed: &[u8; SEED_BYTES],
    h0: &Circulant,
    h1: &Circulant,
    ct: &KemCiphertext,
) -> (r: ArcResult<[u8; SESSION_KEY_BYTES]>)
    ensures
        r matches Ok(k) && k@ == kem_key_for(seed@, h0@, h1@, ct.syndrome@),
{
    let s = Polynomial::from_bytes(&ct.syndrome);
    let s_prime = h0.compute_syndrome_ct(&s);
    let (e0_decoded, e1_decoded, converged) = decode(&s_prime, h0, h1);
    let recomputed = h0.compute_syndrome_ct(&e0_decoded).add(&h1.compute_syndrome_ct(&e1_decoded));
    let ct_ok = byte_mask(recomputed.ct_bytes_equal(&s_prime));
    proof {
        lemma_count_true_le(e0_decoded@);
        lemma_count_true_le(e1_decoded@);
        e0_decoded.lemma_view();
        e1_decoded.lemma_view();
    }
    let w = e0_decoded.weight() + e1_decoded.weight();
    let w_ok = byte_mask(w == ERROR_WEIGHT);
    let fo_mask = ct_ok & w_ok;
    let converged_mask = byte_mask(converged);
    let mask = fo_mask & converged_mask;
    proof {
        assert(recomputed@ =~= syndrome(h0@, h1@, e0_decoded@, e1_decoded@));
        lemma_byte_facts(ct_ok, w_ok);
        lemma_byte_facts(fo_mask, converged_mask);
    }
    let real_key = error_key(&e0_decoded, &e1_decoded);
    let reject_key = rejection_key(seed, ct);
    let key = select_key(&real_key, &reject_key, mask);
    Ok(key)
}

/// Draws an error of weight `ERROR_WEIGHT` over the `2 * M` positions with a
/// partial Fisher-Yates shuffle, split into its two halves.
/// The result is the error that the drawn indices select.
pub fn generate_error_with<R: RandomSource>(rng: &mut R) -> (r: (Polynomial, Polynomial))
    ensures
        r.0@.len() == M,
        r.1@.len() == M,
        count_true(r.0@) + count_true(r.1@) == ERROR_WEIGHT,
        extends(old(rng).drawn(), final(rng).drawn()),
        error_draws_valid(draws_since(old(rng).drawn(), final(rng).drawn())),
        (r.0@, r.1@) == error_from_draws(draws_since(old(rng).drawn(), final(rng).drawn())),
{
    let ghost d0 = rng.drawn();
    let ghost mut js: Seq<int> = Seq::empty();
    let n2: usize = 2 * M;
    let mut bits = vec![0u8; n2];
    let mut pos: Vec<usize> = Vec::new();
    for t in 0..n2
        invariant
            pos@.len() == t,
            forall|u: int| 0 <= u < t ==> #[trigger] pos@[u] == u,
    {
        pos.push(t);
    }
    proof {
        lemma_count_true_zero(ones_of(bits@));
    }
    let mut i: usize = 0;
    while i < ERROR_WEIGHT
        invariant
            n2 == 2 * M,
            bits@.len() == n2,
            pos@.len() == n2,
            i <= ERROR_WEIGHT,
            forall|u: int| 0 <= u < n2 ==> #[trigger] pos@[u] < n2,
            forall|u: int, v: int| 0 <= u < n2 && 0 <= v < n2 && u != v ==> #[trigger] pos@[u] != #[trigger] pos@[v],
            forall|t: int| 0 <= t < n2 ==> #[trigger] bits@[t] <= 1,
            forall|t: int|
                0 <= t < n2 ==> (#[trigger] bits@[t] == 1 <==> exists|u: int| 0 <= u < i && pos@[u] == t),
            count_true(ones_of(bits@)) == i,
            rng.drawn() == d0 + js,
            shuffle_draws_valid(n2 as int, js, i as int),
            shuffled(n2 as int, js, i as int).len() == n2,
            forall|u: int| 0 <= u < n2 ==> #[trigger] pos@[u] as int == shuffled(n2 as int, js, i as int)[u],
        decreases ERROR_WEIGHT - i,
    {
        let j = rng.gen_below(i, n2);
        let ghost js_old = js;
        proof {
            js = js.push(j as int);
            lemma_shuffled_facts(n2 as int, js_old, j as int, i as int);
            lemma_shuffled_facts(n2 as int, js, 0, i as int + 1);
        }
        let ghost pos_old = pos@;
        let pi = pos[i];
        let pj = pos[j];
        pos.set(i, pj);
        pos.set(j, pi);
        let p = pos[i];
        proof {
            assert(pos@ == pos_old.update(i as int, pj).update(j as int, pi));
            assert forall|u: int| 0 <= u < i implies #[trigger] pos@[u] == pos_old[u] by {}
            assert forall|u: int| 0 <= u < n2 implies #[trigger] pos@[u] as int == shuffled(
                n2 as int,
                js,
                i as int + 1,
            )[u] by {
                assert(js[i as int] == j as int);
                assert(shuffled(n2 as int, js, i as int) == shuffled(n2 as int, js_old, i as int));
            }
            assert(rng.drawn() =~= d0 + js);
            assert forall|u: int, v: int| 0 <= u < n2 && 0 <= v < n2 && u != v implies #[trigger] pos@[u]
                != #[trigger] pos@[v] by {
                let ou = if u == i as int { j as int } else if u == j as int { i as int } else { u };
                let ov = if v == i as int { j as int } else if v == j as int { i as int } else { v };
                assert(pos@[u] == pos_old[ou]);
                assert(pos@[v] == pos_old[ov]);
                assert(pos_old[ou] != pos_old[ov]);
            }
            assert forall|u: int| 0 <= u < n2 implies #[trigger] pos@[u] < n2 by {
                let ou = if u == i as int { j as int } else if u == j as int { i as int } else { u };
                assert(pos@[u] == pos_old[ou]);
            }
            if bits@[p as int] == 1 {
                let u = choose|u: int| 0 <= u < i && pos_old[u] == p;
                assert(pos_old[j as int] == p);
                assert(pos_old[u] != pos_old[j as int]);
            }
            lemma_count_true_set(ones_of(bits@), p as int);
        }
        let ghost before = bits@;
        bits.set(p, 1);
        proof {
            assert(ones_of(bits@) =~= ones_of(before).update(p as int, true));
            assert forall|t: int| 0 <= t < n2 implies (#[trigger] bits@[t] == 1 <==> exists|u: int|
                0 <= u < i + 1 && pos@[u] == t) by {
                if t == p as int {
                    assert(pos@[i as int] == t);
                } else if bits@[t] == 1 {
                    assert(before[t] == 1);
                    let u = choose|u: int| 0 <= u < i && pos_old[u] == t;
                    assert(pos@[u] == t);
                } else if exists|u: int| 0 <= u < i + 1 && pos@[u] == t {
                    let u = choose|u: int| 0 <= u < i + 1 && pos@[u] == t;
                    assert(u < i);
                    assert(pos_old[u] == t);
                }
            }
        }
        i = i + 1;
    }
    let half0 = slice_subrange(bits.as_slice(), 0, M);
    let half1 = slice_subrange(bits.as_slice(), M, n2);
    let e0 = Polynomial::from_bits(half0).unwrap();
    let e1 = Polynomial::from_bits(half1).unwrap();
    proof {
        assert(ones_of(bits@) =~= e0@ + e1@);
        lemma_count_true_add(e0@, e1@);
        assert(draws_since(d0, rng.drawn()) =~= js);
        assert(rng.drawn().take(d0.len() as int) =~= d0);
        let c = shuffle_choice(n2 as int, js, ERROR_WEIGHT as int);
        assert forall|t: int| 0 <= t < n2 implies #[trigger] ones_of(bits@)[t] == c[t] by {
            if bits@[t] == 1 {
                let u = choose|u: int| 0 <= u < ERROR_WEIGHT && pos@[u] == t;
                assert(shuffled(n2 as int, js, ERROR_WEIGHT as int)[u] == t);
            }
            if c[t] {
                let u = choose|u: int| 0 <= u < ERROR_WEIGHT && shuffled(n2 as int, js, ERROR_WEIGHT as int)[u] == t;
                assert(pos@[u] == t);
            }
        }
        assert(ones_of(bits@) =~= c);
        assert(e0@ =~= c.subrange(0, M as int));
        assert(e1@ =~= c.subrange(M as int, 2 * M));
    }
    (e0, e1)
}

/// The drawn indices of an error: `ERROR_WEIGHT` shuffle steps over `2 * M` places.
pub open spec fn error_draws_valid(js: Seq<int>) -> bool {
    shuffle_draws_valid(2 * M, js, ERROR_WEIGHT as int)
}

/// The error that the drawn indices `js` select: the positions of `0..2M`
/// that a shuffle with `ERROR_WEIGHT` steps puts first, split into halves.
pub open spec fn error_from_draws(js: Seq<int>) -> (Seq<bool>, Seq<bool>) {
    let c = shuffle_choice(2 * M, js, ERROR_WEIGHT as int);
    (c.subrange(0, M as int), c.subrange(M as int, 2 * M))
}

/// The positions holding a 1.
spec fn ones_of(s: Seq<u8>) -> Seq<bool> {
    Seq::new(s.len(), |t: int| s[t] == 1)
}

/// Draws an error of weight `ERROR_WEIGHT` from the operating-system generator.
pub fn generate_error() -> (r: (Polynomial, Polynomial))
    ensures
        r.0@.len() == M,
        r.1@.len() == M,
        count_true(r.0@) + count_true(r.1@) == ERROR_WEIGHT,
        exists|js: Seq<int>| #[trigger] error_draws_valid(js) && (r.0@, r.1@) == error_from_draws(js),
{
    let mut rng = OsSource::new();
    let r = generate_error_with(&mut rng);
    proof {
        assert(error_draws_valid(draws_since(Seq::<int>::empty(), rng.drawn())));
    }
    r
}

} // verus!

// Stress tests. The screened key generation refuses almost every derived key
// (45 ones among 16384 positions all but always close a 4-cycle), so these
// tests use the unscreened key pairs of fixed seeds.

use arcb_stegano_trapdoor::decoder;
use arcb_stegano_trapdoor::kem;
use arcb_stegano_trapdoor::keygen::{self, KeyPair};
use arcb_stegano_trapdoor::matrix;
use arcb_stegano_trapdoor::parameters::{ERROR_WEIGHT, M, SEED_BYTES};
use arcb_stegano_trapdoor::utils;
use arcb_stegano_trapdoor::Polynomial;
use rand::Rng;

fn test_keypair() -> KeyPair {
    keygen::from_seed_without_dfr([0x01u8; SEED_BYTES]).unwrap()
}

#[test]
fn test_max_weight_decode() {
    let kp = test_keypair();
    let (h0p, h1p) = utils::derive_secret_polynomials(&kp.seed).unwrap();
    let h0 = matrix::Circulant::new(h0p);
    let h1 = matrix::Circulant::new(h1p);

    // Generate error with maximum weight
    let mut rng = rand::thread_rng();
    let mut bits = vec![0u8; 2 * M];
    let mut pos: Vec<usize> = (0..2 * M).collect();
    for i in 0..ERROR_WEIGHT {
        let j = rng.gen_range(i..2 * M);
        pos.swap(i, j);
        bits[pos[i]] = 1;
    }
    let e0 = Polynomial::from_bits(&bits[..M]).unwrap();
    let e1 = Polynomial::from_bits(&bits[M..]).unwrap();

    assert_eq!(e0.weight() + e1.weight(), ERROR_WEIGHT);

    let syndrome = h0.compute_syndrome(&e0).add(&h1.compute_syndrome(&e1));
    let (d0, d1, converged) = decoder::decode(&syndrome, &h0, &h1);

    assert!(converged, "t=134 decode should converge");
    assert!(d0.equals(&e0), "t=134 e0 mismatch");
    assert!(d1.equals(&e1), "t=134 e1 mismatch");
}

#[test]
fn test_min_weight_decode() {
    let kp = test_keypair();
    let (h0p, h1p) = utils::derive_secret_polynomials(&kp.seed).unwrap();
    let h0 = matrix::Circulant::new(h0p);
    let h1 = matrix::Circulant::new(h1p);

    for trial in 0..20 {
        let mut e0 = Polynomial::zero();
        let pos = (trial * 137) % M; // deterministic but spread out
        e0.set_bit(pos, 1);

        let syndrome = h0.compute_syndrome(&e0);
        let (d0, d1, converged) = decoder::decode(&syndrome, &h0, &h1);

        assert!(converged, "t=1 trial {} should converge", trial);
        assert!(d0.equals(&e0), "t=1 trial {} e0 mismatch", trial);
        assert!(d1.is_zero(), "t=1 trial {} d1 should be zero", trial);
    }
}

#[test]
fn test_zero_syndrome() {
    let kp = test_keypair();
    let (h0p, h1p) = utils::derive_secret_polynomials(&kp.seed).unwrap();
    let h0 = matrix::Circulant::new(h0p);
    let h1 = matrix::Circulant::new(h1p);

    let zero = Polynomial::zero();
    let syndrome = h0.compute_syndrome(&zero).add(&h1.compute_syndrome(&zero));

    assert!(syndrome.is_zero(), "Zero input should produce zero syndrome");

    let (d0, d1, _converged) = decoder::decode(&syndrome, &h0, &h1);
    assert!(d0.is_zero(), "Zero syndrome should decode to zero e0");
    assert!(d1.is_zero(), "Zero syndrome should decode to zero e1");
}

#[test]
fn test_repeated_kem_operations() {
    let kp = test_keypair();
    let (h0p, h1p) = utils::derive_secret_polynomials(&kp.seed).unwrap();
    let h0 = matrix::Circulant::new(h0p);
    let h1 = matrix::Circulant::new(h1p);

    let mut prev_key = None;
    for i in 0..20 {
        let (ct, key) = kem::encapsulate(&kp.public);
        let key2 = kem::decapsulate_cached(&kp.seed, &h0, &h1, &ct).unwrap();
        assert_eq!(key, key2, "KEM roundtrip failed at iteration {}", i);

        // Each key should be different (with overwhelming probability)
        if let Some(ref prev) = prev_key {
            assert_ne!(&key, prev, "Key should differ from previous at iteration {}", i);
        }
        prev_key = Some(key);
    }
}

#[test]
fn test_corrupted_syndrome_single_bit() {
    let kp = test_keypair();
    let (h0p, h1p) = utils::derive_secret_polynomials(&kp.seed).unwrap();
    let h0 = matrix::Circulant::new(h0p);
    let h1 = matrix::Circulant::new(h1p);

    let (ct, k1) = kem::encapsulate(&kp.public);

    // Corrupt 1 bit in syndrome
    let mut corrupted_ct = ct.clone();
    corrupted_ct.syndrome[0] ^= 0x01;

    let k2 = kem::decapsulate_cached(&kp.seed, &h0, &h1, &corrupted_ct).unwrap();

    // Corrupted syndrome should produce different key (implicit rejection)
    assert_ne!(k1, k2, "Corrupted syndrome should produce different key");
}

#[test]
fn test_corrupted_syndrome_all_bits() {
    let kp = test_keypair();
    let (h0p, h1p) = utils::derive_secret_polynomials(&kp.seed).unwrap();
    let h0 = matrix::Circulant::new(h0p);
    let h1 = matrix::Circulant::new(h1p);

    let (ct, k1) = kem::encapsulate(&kp.public);

    // Flip all bits in syndrome
    let mut corrupted_ct = ct.clone();
    for byte in corrupted_ct.syndrome.iter_mut() {
        *byte ^= 0xFF;
    }

    let k2 = kem::decapsulate_cached(&kp.seed, &h0, &h1, &corrupted_ct).unwrap();
    assert_ne!(k1, k2, "All-flipped syndrome should produce different key");
}

#[test]
fn test_key_uniqueness() {
    let kp = test_keypair();
    let mut keys = std::collections::HashSet::new();

    for _ in 0..10 {
        let (_, key) = kem::encapsulate(&kp.public);
        keys.insert(key.to_vec());
    }

    // All 10 keys should be unique
    assert_eq!(keys.len(), 10, "All 10 keys should be unique");
}

#[test]
fn test_batch_kem() {
    let kp = test_keypair();
    let (h0p, h1p) = utils::derive_secret_polynomials(&kp.seed).unwrap();
    let h0 = matrix::Circulant::new(h0p);
    let h1 = matrix::Circulant::new(h1p);

    let start = std::time::Instant::now();
    let mut success_count = 0;

    for i in 0..20 {
        let (ct, k1) = kem::encapsulate(&kp.public);
        match kem::decapsulate_cached(&kp.seed, &h0, &h1, &ct) {
            Ok(k2) => {
                assert_eq!(k1, k2, "Batch KEM roundtrip failed at {}", i);
                success_count += 1;
            }
            Err(e) => panic!("Batch KEM failed at {}: {:?}", i, e),
        }
    }

    let elapsed = start.elapsed();
    println!("Batch KEM: {} operations in {:?}", success_count, elapsed);
    println!("Average: {:?} per operation", elapsed / success_count);

    assert_eq!(success_count, 20, "All 20 batch operations should succeed");
}

#[test]
fn stress_test_test_different_seeds() {
    // Key pairs of the unscreened derivation: every seed gives one.
    let mut public_keys = std::collections::HashSet::new();
    for i in 0u8..20 {
        let seed = [i; SEED_BYTES];
        if let Ok(kp) = keygen::from_seed_without_dfr(seed) {
            public_keys.insert(kp.public.as_bytes().to_vec());
        }
    }
    assert!(public_keys.len() >= 15, "At least 15/20 keys should be produced, got {}", public_keys.len());
}

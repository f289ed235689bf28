// Attack-resistance tests. The screened key generation refuses almost every
// derived key (45 ones among 16384 positions all but always close a
// 4-cycle), so these tests use the unscreened key pairs of fixed seeds.

use arcb_stegano_trapdoor::kem;
use arcb_stegano_trapdoor::keygen::{self, KeyPair};
use arcb_stegano_trapdoor::matrix;
use arcb_stegano_trapdoor::parameters::{SEED_BYTES, SESSION_KEY_BYTES, SYNDROME_BYTES};
use arcb_stegano_trapdoor::utils;

fn keypair(b: u8) -> KeyPair {
    keygen::from_seed_without_dfr([b; SEED_BYTES]).unwrap()
}

#[test]
fn test_corrupted_kem_ciphertext_rejected() {
    let kp = keypair(0x61);
    let (h0p, h1p) = utils::derive_secret_polynomials(&kp.seed).unwrap();
    let h0 = matrix::Circulant::new(h0p);
    let h1 = matrix::Circulant::new(h1p);

    let (ct, k1) = kem::encapsulate(&kp.public);

    // Corrupt 1 byte in the syndrome
    let mut corrupted_ct = kem::KemCiphertext { syndrome: ct.syndrome };
    corrupted_ct.syndrome[0] ^= 0xFF;

    let k2 = kem::decapsulate_cached(&kp.seed, &h0, &h1, &corrupted_ct).unwrap();

    // The corrupted CT should produce a DIFFERENT key (implicit rejection)
    assert_ne!(k1, k2, "Corrupted CT should produce different key");
}

#[test]
fn test_wrong_seed_decapsulate_doesnt_crash() {
    let kp1 = keypair(0x62);
    let kp2 = keypair(0x63);

    let (ct, k1) = kem::encapsulate(&kp1.public);

    // Decapsulate with wrong seed — should produce different key, not crash
    let k2 = kem::decapsulate(&kp2.seed, &ct).unwrap();
    assert_ne!(k1, k2, "Wrong seed should produce different key");
}

#[test]
fn test_zero_ciphertext_handled() {
    let kp = keypair(0x64);
    let zero_ct = kem::KemCiphertext { syndrome: [0u8; SYNDROME_BYTES] };
    // Should not crash — FO transform handles this
    let _ = kem::decapsulate(&kp.seed, &zero_ct).unwrap();
}

#[test]
fn test_kem_forward_secrecy() {
    // Each encapsulation should produce a different session key
    let kp = keypair(0x65);
    let mut keys = std::collections::HashSet::new();

    for _ in 0..10 {
        let (_, key) = kem::encapsulate(&kp.public);
        keys.insert(key);
    }

    // All keys should be unique (with overwhelming probability)
    assert_eq!(keys.len(), 10, "KEM should produce unique keys per encapsulation");
}

#[test]
fn test_kem_ciphertext_randomness() {
    // KEM ciphertexts should look random
    let kp = keypair(0x66);
    let (ct1, _) = kem::encapsulate(&kp.public);
    let (ct2, _) = kem::encapsulate(&kp.public);

    // Two ciphertexts should be different
    assert_ne!(ct1.syndrome, ct2.syndrome, "KEM ciphertexts should differ");

    // Check bit density
    let ones = ct1.syndrome.iter().map(|&b| b.count_ones() as usize).sum::<usize>();
    let total = ct1.syndrome.len() * 8;
    let ratio = ones as f64 / total as f64;
    assert!(ratio > 0.4 && ratio < 0.6, "CT bit density {:.4} not close to 0.5", ratio);
}

#[test]
fn attack_implicit_rejection() {
    let kp1 = keypair(0x67);
    let kp2 = keypair(0x68);

    let (ct, k1) = kem::encapsulate(&kp1.public);
    let k2 = kem::decapsulate(&kp2.seed, &ct).unwrap();

    // k1 and k2 should be completely unrelated
    let mut diff_bits = 0;
    for i in 0..SESSION_KEY_BYTES {
        diff_bits += (k1[i] ^ k2[i]).count_ones();
    }

    println!("Bit differences: {}/{}", diff_bits, SESSION_KEY_BYTES * 8);

    // Keys should differ in ~50% of bits
    let diff_ratio = diff_bits as f64 / (SESSION_KEY_BYTES * 8) as f64;
    assert!(
        diff_ratio > 0.3 && diff_ratio < 0.7,
        "Key difference ratio {:.2} is suspicious (expected ~0.5)",
        diff_ratio
    );
}

#[test]
fn attack_replay() {
    let kp = keypair(0x69);

    let (ct, k1) = kem::encapsulate(&kp.public);
    let k2 = kem::decapsulate(&kp.seed, &ct).unwrap();

    // Same ciphertext should produce same key
    assert_eq!(k1, k2, "Replay should produce same key");
}

#[test]
fn attack_known_plaintext() {
    let kp = keypair(0x6A);

    // Get multiple plaintext-ciphertext pairs
    let mut pairs = Vec::new();
    for _ in 0..5 {
        let (ct, key) = kem::encapsulate(&kp.public);
        pairs.push((ct, key));
    }

    // Check if keys are all different (they should be)
    let mut unique_keys = std::collections::HashSet::new();
    for (_, key) in &pairs {
        unique_keys.insert(key.to_vec());
    }

    assert_eq!(unique_keys.len(), pairs.len(), "Each encapsulation should produce a unique key");
}

#[test]
fn test_public_key_looks_random() {
    let kp = keypair(0x6B);
    let pk = kp.public.as_bytes();

    // Check bit density - should be close to 0.5 for random
    let ones = pk.iter().map(|&b| b.count_ones() as usize).sum::<usize>();
    let total_bits = pk.len() * 8;
    let ratio = ones as f64 / total_bits as f64;
    assert!(ratio > 0.4 && ratio < 0.6, "PK bit density {:.4} not close to 0.5", ratio);

    // Check syndrome also looks random
    let (ct, _) = kem::encapsulate(&kp.public);
    let syndrome = &ct.syndrome;
    let syn_ones = syndrome.iter().map(|&b| b.count_ones() as usize).sum::<usize>();
    let syn_total = syndrome.len() * 8;
    let syn_ratio = syn_ones as f64 / syn_total as f64;
    assert!(syn_ratio > 0.4 && syn_ratio < 0.6, "Syndrome bit density {:.4} not close to 0.5", syn_ratio);
}

#[test]
fn test_kem_fo_corrupted_ct() {
    let kp = keypair(0x6C);
    let (h0p, h1p) = utils::derive_secret_polynomials(&kp.seed).unwrap();
    let h0 = matrix::Circulant::new(h0p);
    let h1 = matrix::Circulant::new(h1p);

    let (ct, original_key) = kem::encapsulate(&kp.public);
    let original_key_cached = kem::decapsulate_cached(&kp.seed, &h0, &h1, &ct).unwrap();
    assert_eq!(original_key, original_key_cached, "Original CT should decapsulate correctly");

    // Corrupt 1 bit in syndrome
    let mut ct_corrupt = ct;
    ct_corrupt.syndrome[0] ^= 0x01;
    let corrupt_key = kem::decapsulate_cached(&kp.seed, &h0, &h1, &ct_corrupt).unwrap();

    assert_ne!(corrupt_key, original_key, "Corrupted CT should produce different key (implicit rejection)");
}

#[test]
fn test_kem_multiple_encaps_different_keys() {
    let kp = keypair(0x6D);
    let mut keys = std::collections::HashSet::new();

    for _ in 0..10 {
        let (_ct, key) = kem::encapsulate(&kp.public);
        keys.insert(key.to_vec());
    }

    assert_eq!(keys.len(), 10, "All 10 encapsulations should produce unique keys");
}

#[test]
fn test_keygen_rejects_weak_keys() {
    // The screened generation refuses a seed whose blocks fail the girth or
    // trapping-set screen; the unscreened derivation gives a key for each.
    let mut successes = 0;
    let attempts = 10;
    for i in 0..attempts {
        let seed = [i as u8; SEED_BYTES];
        let (h0, h1) = utils::derive_secret_polynomials(&seed).unwrap();
        if keygen::screen_key(&h0, &h1).is_err() {
            assert!(keygen::from_seed(seed).is_err());
        }
        if keygen::from_seed_without_dfr(seed).is_ok() {
            successes += 1;
        }
    }
    assert!(successes >= attempts * 8 / 10, "Only {}/{} keys generated", successes, attempts);
}

use arcb_stegano_trapdoor::keygen;
use arcb_stegano_trapdoor::kem::{
    decapsulate, decapsulate_cached, encapsulate, encapsulate_from, encapsulate_with_error, generate_error,
    generate_error_with, KemCiphertext,
};
use arcb_stegano_trapdoor::source::{OsSource, ThreadSource};
use arcb_stegano_trapdoor::matrix::Circulant;
use arcb_stegano_trapdoor::parameters::{ERROR_WEIGHT, M, SEED_BYTES, SYNDROME_BYTES};
use arcb_stegano_trapdoor::polynomial::Polynomial;
use arcb_stegano_trapdoor::utils;

#[test]
fn test_kem_roundtrip() {
    let kp = keygen::from_seed_without_dfr([0xABu8; SEED_BYTES]).unwrap();
    let (ct, k1) = encapsulate(&kp.public);
    let k2 = decapsulate(&kp.seed, &ct).unwrap();
    assert_eq!(k1, k2);
}

#[test]
fn kem_test_kem_roundtrip_cached() {
    let kp = keygen::from_seed_without_dfr([0xCDu8; SEED_BYTES]).unwrap();
    let (h0p, h1p) = utils::derive_secret_polynomials(&kp.seed).unwrap();
    let h0 = Circulant::new(h0p);
    let h1 = Circulant::new(h1p);

    for _ in 0..5 {
        let (ct, k1) = encapsulate(&kp.public);
        let k2 = decapsulate_cached(&kp.seed, &h0, &h1, &ct).unwrap();
        assert_eq!(k1, k2);
    }
}

#[test]
fn kem_test_wrong_seed_fails() {
    let kp1 = keygen::from_seed_without_dfr([0x01u8; SEED_BYTES]).unwrap();
    let kp2 = keygen::from_seed_without_dfr([0x02u8; SEED_BYTES]).unwrap();
    let (ct, k1) = encapsulate(&kp1.public);
    let k_wrong = decapsulate(&kp2.seed, &ct).unwrap();
    assert_ne!(k_wrong, k1, "wrong seed should produce different key");
}

#[test]
fn test_error_weight() {
    let (e0, e1) = generate_error();
    assert_eq!(e0.weight() + e1.weight(), ERROR_WEIGHT);
}

#[test]
fn syndrome_is_error_plus_error_times_public_key() {
    // The ciphertext is e0 + e1 * p for some error of weight ERROR_WEIGHT;
    // multiplying by h0 gives H * e, a syndrome the secret blocks decode.
    let seed = [0x42u8; SEED_BYTES];
    let kp = keygen::from_seed_without_dfr(seed).unwrap();
    let (h0, h1) = utils::derive_secret_polynomials(&seed).unwrap();
    // h0 * p == h1
    assert!(h0.multiply(&kp.public).equals(&h1));
    let (ct, _) = encapsulate(&kp.public);
    let s = Polynomial::from_bytes(&ct.syndrome);
    let s_prime = h0.multiply(&s);
    let h0c = Circulant::new(h0);
    let h1c = Circulant::new(h1);
    let (d0, d1, converged) = arcb_stegano_trapdoor::decoder::decode(&s_prime, &h0c, &h1c);
    assert!(converged);
    assert_eq!(d0.weight() + d1.weight(), ERROR_WEIGHT);
    // re-encryption reproduces the ciphertext
    let again = d0.add(&d1.multiply(&kp.public));
    assert_eq!(again.as_bytes(), &ct.syndrome);
}

#[test]
fn zero_ciphertext_gives_the_rejection_key_deterministically() {
    let seed = [0x42u8; SEED_BYTES];
    let ct = KemCiphertext { syndrome: [0u8; SYNDROME_BYTES] };
    let k1 = decapsulate(&seed, &ct).unwrap();
    let k2 = decapsulate(&seed, &ct).unwrap();
    assert_eq!(k1, k2);
    let other = decapsulate(&[0x43u8; SEED_BYTES], &ct).unwrap();
    assert_ne!(k1, other);
}

#[test]
fn corrupted_ciphertext_is_answered_with_a_different_key() {
    let kp = keygen::from_seed_without_dfr([0x42u8; SEED_BYTES]).unwrap();
    let (ct, k1) = encapsulate(&kp.public);
    let mut bad = ct.clone();
    bad.syndrome[7] ^= 0x10;
    let k2 = decapsulate(&kp.seed, &bad).unwrap();
    assert_ne!(k1, k2);
    // the answer is deterministic
    assert_eq!(k2, decapsulate(&kp.seed, &bad).unwrap());
}

#[test]
fn rejection_key_is_blake3_of_tag_seed_and_ciphertext() {
    // The zero syndrome decodes to the zero error, whose weight is not
    // ERROR_WEIGHT, so the answer is the rejection key.
    let seed = [0x5Au8; SEED_BYTES];
    let ct = KemCiphertext { syndrome: [0u8; SYNDROME_BYTES] };
    let k = decapsulate(&seed, &ct).unwrap();
    let mut input = Vec::new();
    input.extend_from_slice(b"ARCB-KEM-REJ-V1");
    input.extend_from_slice(&seed);
    input.extend_from_slice(&ct.syndrome);
    let expected: [u8; 32] = blake3::hash(&input).into();
    assert_eq!(k, expected);
}

#[test]
fn encapsulation_of_a_given_error_is_its_syndrome_and_hash() {
    let kp = keygen::from_seed_without_dfr([0x31u8; SEED_BYTES]).unwrap();
    // 67 + 67 ones, spread over both halves.
    let mut e0 = Polynomial::zero();
    let mut e1 = Polynomial::zero();
    for i in 0..67 {
        e0.set_bit((i * 241 + 5) % M, 1);
        e1.set_bit((i * 239 + 11) % M, 1);
    }
    assert_eq!(e0.weight() + e1.weight(), ERROR_WEIGHT);
    let (ct, key) = encapsulate_with_error(&kp.public, &e0, &e1);
    let expected_syndrome = e0.add(&e1.multiply(&kp.public));
    assert_eq!(&ct.syndrome, expected_syndrome.as_bytes());
    let mut input = Vec::new();
    input.extend_from_slice(b"ARCB-KEM-KEY-V1");
    input.extend_from_slice(e0.as_bytes());
    input.extend_from_slice(e1.as_bytes());
    let expected_key: [u8; 32] = blake3::hash(&input).into();
    assert_eq!(key, expected_key);
    // The holder of the seed recovers the same key.
    assert_eq!(decapsulate(&kp.seed, &ct).unwrap(), key);
}

#[test]
fn encapsulation_with_a_given_source_round_trips() {
    let kp = keygen::from_seed_without_dfr([0x3Cu8; SEED_BYTES]).unwrap();
    let mut source = ThreadSource::new();
    let (ct, k1) = encapsulate_from(&kp.public, &mut source);
    assert_eq!(decapsulate(&kp.seed, &ct).unwrap(), k1);
}

#[test]
fn successive_errors_are_drawn_afresh() {
    let mut source = OsSource::new();
    let (a0, a1) = generate_error_with(&mut source);
    let (b0, b1) = generate_error_with(&mut source);
    assert_eq!(a0.weight() + a1.weight(), ERROR_WEIGHT);
    assert_eq!(b0.weight() + b1.weight(), ERROR_WEIGHT);
    assert!(!(a0.equals(&b0) && a1.equals(&b1)));
}

use arcb_stegano_trapdoor::keygen::{from_seed, from_seed_without_dfr, KeyPair};
use arcb_stegano_trapdoor::parameters::{PUBKEY_BYTES, SEED_BYTES};
use arcb_stegano_trapdoor::utils;

#[test]
fn test_from_seed_deterministic() {
    let seed = [0xABu8; SEED_BYTES];
    let kp1 = from_seed_without_dfr(seed).unwrap();
    let kp2 = from_seed_without_dfr(seed).unwrap();
    assert!(kp1.public.equals(&kp2.public));
}

#[test]
fn test_generate_nonzero() {
    let kp = from_seed_without_dfr([0x42u8; SEED_BYTES]).unwrap();
    assert!(!kp.public.is_zero());
}

#[test]
fn test_pubkey_size() {
    let kp = from_seed_without_dfr([0x42u8; SEED_BYTES]).unwrap();
    assert_eq!(kp.public.as_bytes().len(), PUBKEY_BYTES);
}

#[test]
fn keygen_test_different_seeds() {
    let mut keys: Vec<KeyPair> = Vec::new();
    for i in 0u8..3 {
        let kp = from_seed_without_dfr([i; SEED_BYTES]).unwrap();
        keys.push(kp);
    }
    for i in 0..keys.len() {
        for j in (i + 1)..keys.len() {
            assert!(!keys[i].public.equals(&keys[j].public), "keys {} and {} should differ", i, j);
        }
    }
}

#[test]
fn public_key_solves_h0_times_p_equals_h1() {
    let seed = [0x07u8; SEED_BYTES];
    let kp = from_seed_without_dfr(seed).unwrap();
    assert_eq!(kp.seed, seed);
    let (h0, h1) = utils::derive_secret_polynomials(&seed).unwrap();
    assert!(h0.multiply(&kp.public).equals(&h1));
}

#[test]
fn screened_keygen_rejects_keys_with_four_cycles() {
    // With 45 ones among 16384 positions a 4-cycle is all but certain, and the
    // girth screen then rejects the key.
    let seed = [0x42u8; SEED_BYTES];
    let (h0, _h1) = utils::derive_secret_polynomials(&seed).unwrap();
    if !utils::check_girth(&h0, 8) {
        assert!(from_seed(seed).is_err());
    }
}

#[test]
fn girth_screen_rejects_the_derived_blocks_of_small_seeds() {
    // 45 ones among 16384 positions give about 990 pair sums, so two pairs
    // with equal sums (a 4-cycle) are all but certain: the screened key
    // generation refuses these seeds, while the unscreened one succeeds.
    for i in 0u8..8 {
        let seed = [i; SEED_BYTES];
        let (h0, h1) = utils::derive_secret_polynomials(&seed).unwrap();
        assert!(!utils::check_girth(&h0, 8) || !utils::check_girth(&h1, 8));
        assert!(from_seed(seed).is_err());
        assert!(from_seed_without_dfr(seed).is_ok());
    }
}

#[test]
fn cross_block_trapping_pair_is_caught() {
    // Column 100 of H0 and column 0 of H1 share the checks {100, 101, 103}.
    let h0 = arcb_stegano_trapdoor::Polynomial::from_positions(&[0, 1, 3]);
    let h1 = arcb_stegano_trapdoor::Polynomial::from_positions(&[100, 101, 103]);
    assert!(arcb_stegano_trapdoor::keygen::screen_key(&h0, &h1).is_err());
    // Shifted apart so that no shift overlaps in three places, the pair passes.
    let h1b = arcb_stegano_trapdoor::Polynomial::from_positions(&[100, 105, 120]);
    assert!(arcb_stegano_trapdoor::keygen::screen_key(&h0, &h1b).is_ok());
}

#[test]
fn a_trial_decoding_recovers_a_drawn_error() {
    let seed = [0x09u8; SEED_BYTES];
    let (h0, h1) = utils::derive_secret_polynomials(&seed).unwrap();
    let c0 = arcb_stegano_trapdoor::matrix::Circulant::new(h0);
    let c1 = arcb_stegano_trapdoor::matrix::Circulant::new(h1);
    let (e0, e1) = arcb_stegano_trapdoor::kem::generate_error();
    assert!(arcb_stegano_trapdoor::keygen::dfr_trial(&c0, &c1, &e0, &e1));
    // The zero error is its own decoding too.
    let z = arcb_stegano_trapdoor::Polynomial::zero();
    assert!(arcb_stegano_trapdoor::keygen::dfr_trial(&c0, &c1, &z, &z));
}

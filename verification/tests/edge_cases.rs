use arcb_stegano_trapdoor::source::ThreadSource;
use arcb_stegano_trapdoor::matrix::Circulant;
use arcb_stegano_trapdoor::polynomial::Polynomial;
use arcb_stegano_trapdoor::{decoder, parameters, utils};
use rand::Rng;

fn keypair_from_seed(seed: &[u8; parameters::SEED_BYTES]) -> (Circulant, Circulant) {
    let (h0p, h1p) = utils::derive_secret_polynomials(seed).unwrap();
    (Circulant::new(h0p), Circulant::new(h1p))
}

fn create_error_vector(weight: usize) -> (Polynomial, Polynomial) {
    let mut rng = rand::thread_rng();
    let mut bits = vec![0u8; 2 * parameters::M];
    let mut pos: Vec<usize> = (0..2 * parameters::M).collect();
    for i in 0..weight {
        let j = rng.gen_range(i..2 * parameters::M);
        pos.swap(i, j);
        bits[pos[i]] = 1;
    }
    (
        Polynomial::from_bits(&bits[..parameters::M]).unwrap(),
        Polynomial::from_bits(&bits[parameters::M..]).unwrap(),
    )
}

#[test]
fn test_edge_syndrome_zero() {
    let seed = [0xABu8; parameters::SEED_BYTES];
    let (h0, h1) = keypair_from_seed(&seed);

    let zero_syndrome = Polynomial::zero();
    let (e0, e1, converged) = decoder::decode(&zero_syndrome, &h0, &h1);

    assert!(converged, "Zero syndrome should converge immediately");
    assert!(e0.is_zero(), "e0 should be zero for zero syndrome");
    assert!(e1.is_zero(), "e1 should be zero for zero syndrome");
}

#[test]
fn test_edge_weight_mismatch_fo_reject() {
    let seed = [0x42u8; parameters::SEED_BYTES];
    let (h0, h1) = keypair_from_seed(&seed);

    for wrong_weight in [1, 10, 50, 100, 133, 135, 200, 500] {
        let (e0_wrong, e1_wrong) = create_error_vector(wrong_weight);
        let syndrome = h0.compute_syndrome(&e0_wrong).add(&h1.compute_syndrome(&e1_wrong));

        let (d0, d1, converged) = decoder::decode(&syndrome, &h0, &h1);

        if converged {
            let decoded_weight = d0.weight() + d1.weight();
            println!("  weight={}: decoded_weight={}, converged={}", wrong_weight, decoded_weight, converged);
        } else {
            println!("  weight={}: decode failed (expected for wrong weight)", wrong_weight);
        }
    }
}

#[test]
fn test_edge_gray_count_no_overflow() {
    let seed = [0xCDu8; parameters::SEED_BYTES];
    let (h0, h1) = keypair_from_seed(&seed);

    let mut src = ThreadSource::new();
    for _trial in 0..10 {
        let random_syndrome = Polynomial::random_full(&mut src);
        let (_e0, _e1, _converged) = decoder::decode(&random_syndrome, &h0, &h1);
    }
}

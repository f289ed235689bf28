use arcb_stegano_trapdoor::source::ThreadSource;
use arcb_stegano_trapdoor::decoder::decode;
use arcb_stegano_trapdoor::matrix::Circulant;
use arcb_stegano_trapdoor::parameters::{ERROR_WEIGHT, M, SEED_BYTES};
use arcb_stegano_trapdoor::polynomial::Polynomial;
use arcb_stegano_trapdoor::utils;
use rand::Rng;

#[test]
fn test_decode_zero() {
    let seed = [0xABu8; SEED_BYTES];
    let (h0p, h1p) = utils::derive_secret_polynomials(&seed).unwrap();
    let h0 = Circulant::new(h0p);
    let h1 = Circulant::new(h1p);
    let (e0, e1, converged) = decode(&Polynomial::zero(), &h0, &h1);
    assert!(converged);
    assert!(e0.is_zero() && e1.is_zero());
}

#[test]
fn test_decode_t1() {
    let seed = [0x42u8; SEED_BYTES];
    let (h0p, h1p) = utils::derive_secret_polynomials(&seed).unwrap();
    let h0 = Circulant::new(h0p.clone());
    let h1 = Circulant::new(h1p.clone());

    for trial in 0u8..5 {
        let mut rng = rand::thread_rng();
        let mut bits = vec![0u8; 2 * M];
        let j = rng.gen_range(0..2 * M);
        bits[j] = 1;

        let e0 = Polynomial::from_bits(&bits[..M]).unwrap();
        let e1 = Polynomial::from_bits(&bits[M..]).unwrap();
        let s = h0.compute_syndrome(&e0).add(&h1.compute_syndrome(&e1));

        let (d0, d1, converged) = decode(&s, &h0, &h1);
        assert!(converged, "t=1 trial {trial} (pos={j}) failed");
        assert!(d0.equals(&e0) && d1.equals(&e1), "t=1 trial {trial} mismatch");
    }
}

#[test]
fn decode_output_reproduces_target_when_converged() {
    let seed = [0x42u8; SEED_BYTES];
    let (h0p, h1p) = utils::derive_secret_polynomials(&seed).unwrap();
    let h0 = Circulant::new(h0p);
    let h1 = Circulant::new(h1p);
    let mut src = ThreadSource::new();
    let target = Polynomial::random_full(&mut src);
    let (d0, d1, converged) = decode(&target, &h0, &h1);
    let recomputed = h0.compute_syndrome(&d0).add(&h1.compute_syndrome(&d1));
    assert_eq!(converged, recomputed.equals(&target));
}

#[test]
fn test_dfr_benchmark() {
    let mut successes = 0;
    let mut failures = 0;
    let trials = 20;

    let start = std::time::Instant::now();

    for trial in 0..trials {
        let seed = [trial as u8; SEED_BYTES];
        let (h0p, h1p) = utils::derive_secret_polynomials(&seed).unwrap();
        let h0 = Circulant::new(h0p.clone());
        let h1 = Circulant::new(h1p.clone());

        // Generate random error of weight ERROR_WEIGHT
        let mut rng = rand::thread_rng();
        let mut bits = vec![0u8; 2 * M];
        let mut pos: Vec<usize> = (0..2 * M).collect();
        for i in 0..ERROR_WEIGHT {
            let j = rng.gen_range(i..2 * M);
            pos.swap(i, j);
            bits[pos[i]] = 1;
        }

        let e0 = Polynomial::from_bits(&bits[..M]).unwrap();
        let e1 = Polynomial::from_bits(&bits[M..]).unwrap();

        // Compute syndrome
        let s = h0.compute_syndrome(&e0).add(&h1.compute_syndrome(&e1));

        // Decode
        let (d0, d1, converged) = decode(&s, &h0, &h1);

        if converged && d0.equals(&e0) && d1.equals(&e1) {
            successes += 1;
        } else {
            failures += 1;
        }

        let elapsed = start.elapsed();
        println!(
            "trial {trial}: {} successes, {} failures, elapsed: {:?}",
            successes, failures, elapsed
        );
    }

    let total = successes + failures;
    let dfr = failures as f64 / total as f64;
    println!(
        "\nDFR benchmark: {}/{} successes, DFR ≈ {:.4}%, total time: {:?}",
        successes,
        total,
        dfr * 100.0,
        start.elapsed()
    );

    // This demo test just verifies the decoder works
    assert!(successes > 0, "Decoder should succeed at least once");
}

use arcb_stegano_trapdoor::source::ThreadSource;
use arcb_stegano_trapdoor::matrix::Circulant;
use arcb_stegano_trapdoor::polynomial::Polynomial;

#[test]
fn test_syndrome_matches_poly_mul() {
    let mut src = ThreadSource::new();
    let h = Polynomial::random_with_weight(&mut src, 45);
    let v = Polynomial::random_with_weight(&mut src, 25);
    let circ = Circulant::new(h.clone());
    let syndrome = circ.compute_syndrome(&v);
    let reference = h.multiply(&v);
    assert!(syndrome.equals(&reference));
}

#[test]
fn test_syndrome_zero_vector() {
    let mut src = ThreadSource::new();
    let h = Polynomial::random_with_weight(&mut src, 45);
    let circ = Circulant::new(h);
    let s = circ.compute_syndrome(&Polynomial::zero());
    assert!(s.is_zero());
}

#[test]
fn test_syndrome_single_bit() {
    let mut src = ThreadSource::new();
    let h = Polynomial::random_with_weight(&mut src, 45);
    let mut v = Polynomial::zero();
    v.set_bit(0, 1);
    let circ = Circulant::new(h.clone());
    let s = circ.compute_syndrome(&v);
    assert!(s.equals(&h), "syndrome of e_0 should equal h");
}

#[test]
fn test_syndrome_two_bits() {
    let mut h = Polynomial::zero();
    h.set_bit(0, 1);
    h.set_bit(1, 1);
    let circ = Circulant::new(h.clone());

    let mut v = Polynomial::zero();
    v.set_bit(0, 1);
    v.set_bit(1, 1);

    let syndrome = circ.compute_syndrome(&v);
    let reference = h.multiply(&v);
    assert!(syndrome.equals(&reference), "two-bit syndrome mismatch");
}

#[test]
fn test_syndrome_cross_word_boundary() {
    let mut h = Polynomial::zero();
    h.set_bit(0, 1);
    let circ = Circulant::new(h.clone());

    let mut v = Polynomial::zero();
    v.set_bit(64, 1);

    let syndrome = circ.compute_syndrome(&v);
    let reference = h.multiply(&v);
    assert!(syndrome.equals(&reference), "bit-64 syndrome mismatch");

    let mut v = Polynomial::zero();
    v.set_bit(65, 1);

    let syndrome = circ.compute_syndrome(&v);
    let reference = h.multiply(&v);
    assert!(syndrome.equals(&reference), "bit-65 syndrome mismatch");
}

#[test]
fn test_syndrome_ct_matches_non_ct() {
    let mut src = ThreadSource::new();
    let h = Polynomial::random_with_weight(&mut src, 45);
    let v = Polynomial::random_with_weight(&mut src, 25);
    let circ = Circulant::new(h);
    let s_fast = circ.compute_syndrome(&v);
    let s_ct = circ.compute_syndrome_ct(&v);
    assert!(s_fast.equals(&s_ct), "Bitsliced and non-CT syndrome should match");
}

#[test]
fn test_bitsliced_matches_non_ct() {
    let mut src = ThreadSource::new();
    let h = Polynomial::random_with_weight(&mut src, 45);
    let v = Polynomial::random_with_weight(&mut src, 25);
    let circ = Circulant::new(h);
    let s_fast = circ.compute_syndrome(&v);
    let s_bitsliced = circ.compute_syndrome_ct(&v);
    assert!(
        s_fast.equals(&s_bitsliced),
        "Bitsliced and non-CT syndrome should match. Fast weight: {}, Bitsliced weight: {}",
        s_fast.weight(),
        s_bitsliced.weight()
    );
}

#[test]
fn circulant_reports_row_weight_and_ones() {
    let p = Polynomial::from_positions(&[1, 64, 16000]);
    let circ = Circulant::new(p);
    assert_eq!(circ.row_weight(), 3);
    assert_eq!(circ.ones(), &[1usize, 64, 16000][..]);
    assert_eq!(circ.polynomial().weight(), 3);
}

#[test]
fn test_syndrome_correctness() {
    let mut src = ThreadSource::new();
    let h = Polynomial::random_with_weight(&mut src, 45);
    let circ = Circulant::new(h.clone());

    for _ in 0..10 {
        let v = Polynomial::random_with_weight(&mut src, 25);

        // Reference: polynomial multiplication
        let expected = h.multiply(&v);

        // Fast syndrome
        let s_fast = circ.compute_syndrome(&v);

        // CT syndrome
        let s_ct = circ.compute_syndrome_ct(&v);

        assert!(s_fast.equals(&expected), "Fast syndrome should match h*v");
        assert!(s_ct.equals(&expected), "CT syndrome should match h*v");
    }
}

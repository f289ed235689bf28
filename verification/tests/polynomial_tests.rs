use arcb_stegano_trapdoor::source::ThreadSource;
use arcb_stegano_trapdoor::parameters::{M, ROW_WEIGHT};
use arcb_stegano_trapdoor::polynomial::Polynomial;

#[test]
fn test_zero_and_bit_ops() {
    let mut p = Polynomial::zero();
    assert!(p.is_zero());
    assert_eq!(p.weight(), 0);
    p.set_bit(0, 1);
    assert_eq!(p.get_bit(0), 1);
    assert_eq!(p.weight(), 1);
    p.flip_bit(0);
    assert_eq!(p.get_bit(0), 0);
    assert!(p.is_zero());
}

#[test]
fn test_add_xor() {
    let mut a = Polynomial::zero();
    a.set_bit(0, 1);
    a.set_bit(10, 1);
    let mut b = Polynomial::zero();
    b.set_bit(10, 1);
    b.set_bit(100, 1);
    let c = a.add(&b);
    assert_eq!(c.weight(), 2);
    assert_eq!(c.get_bit(0), 1);
    assert_eq!(c.get_bit(10), 0);
    assert_eq!(c.get_bit(100), 1);
}

#[test]
fn test_cyclic_shift() {
    let mut a = Polynomial::zero();
    a.set_bit(0, 1);
    a.set_bit(M - 1, 1);
    let s = a.cyclic_shift(1);
    assert_eq!(s.get_bit(1), 1);
    assert_eq!(s.get_bit(0), 1);
    assert_eq!(s.get_bit(M - 1), 0);
}

#[test]
fn test_multiply_basic() {
    let mut a = Polynomial::zero();
    a.set_bit(0, 1);
    a.set_bit(1, 1);
    let prod = a.multiply(&a);
    assert_eq!(prod.get_bit(0), 1);
    assert_eq!(prod.get_bit(1), 0);
    assert_eq!(prod.get_bit(2), 1);
}

#[test]
fn test_multiply_with_weight() {
    let mut src = ThreadSource::new();
    let p = Polynomial::random_with_weight(&mut src, ROW_WEIGHT);
    let q = Polynomial::random_with_weight(&mut src, ROW_WEIGHT);
    let _prod = p.multiply(&q);
}

#[test]
fn test_random_weight_exact() {
    let mut src = ThreadSource::new();
    for _ in 0..20 {
        let p = Polynomial::random_with_weight(&mut src, ROW_WEIGHT);
        assert_eq!(p.weight(), ROW_WEIGHT);
    }
}

#[test]
fn test_serialization_roundtrip() {
    let mut src = ThreadSource::new();
    let p = Polynomial::random_full(&mut src);
    let bytes = *p.as_bytes();
    let q = Polynomial::from_bytes(&bytes);
    assert!(p.equals(&q));
}

#[test]
fn test_invert_known() {
    let mut one = Polynomial::zero();
    one.set_bit(0, 1);
    let inv = one.invert().unwrap();
    assert!(one.equals(&inv));
}

#[test]
fn test_invert_zero() {
    let z = Polynomial::zero();
    assert!(z.invert().is_none());
}

fn one() -> Polynomial {
    let mut p = Polynomial::zero();
    p.set_bit(0, 1);
    p
}

#[test]
fn inverse_times_element_is_one() {
    let mut src = ThreadSource::new();
    for _ in 0..2 {
        let a = Polynomial::random_with_weight(&mut src, ROW_WEIGHT);
        let inv = a.invert().expect("odd weight elements are invertible");
        assert!(a.multiply(&inv).equals(&one()));
        assert!(inv.multiply(&a).equals(&one()));
    }
}

#[test]
fn inverse_of_one_plus_x_squared_plus_x() {
    // (1 + x + x^2) has odd weight, so it is invertible modulo x^M - 1.
    let mut a = Polynomial::zero();
    a.set_bit(0, 1);
    a.set_bit(1, 1);
    a.set_bit(2, 1);
    let inv = a.invert().unwrap();
    assert!(a.multiply(&inv).equals(&one()));
}

#[test]
fn even_weight_elements_are_not_invertible() {
    let mut a = Polynomial::zero();
    a.set_bit(0, 1);
    a.set_bit(5, 1);
    assert!(a.invert().is_none());
    let mut src = ThreadSource::new();
    let b = Polynomial::random_with_weight(&mut src, 44);
    assert!(b.invert().is_none());
}

#[test]
fn multiplication_is_commutative_and_associative() {
    let mut src = ThreadSource::new();
    let a = Polynomial::random_with_weight(&mut src, 30);
    let b = Polynomial::random_with_weight(&mut src, 20);
    let c = Polynomial::random_with_weight(&mut src, 10);
    assert!(a.multiply(&b).equals(&b.multiply(&a)));
    assert!(a.multiply(&b).multiply(&c).equals(&a.multiply(&b.multiply(&c))));
    assert!(a.multiply_ct(&b).equals(&a.multiply(&b)));
}

#[test]
fn multiplication_distributes_over_addition() {
    let mut src = ThreadSource::new();
    let a = Polynomial::random_with_weight(&mut src, 30);
    let b = Polynomial::random_with_weight(&mut src, 20);
    let c = Polynomial::random_with_weight(&mut src, 10);
    let lhs = a.add(&b).multiply(&c);
    let rhs = a.multiply(&c).add(&b.multiply(&c));
    assert!(lhs.equals(&rhs));
}

#[test]
fn multiply_wraps_around_modulo_x_m_minus_one() {
    let mut a = Polynomial::zero();
    a.set_bit(M - 1, 1);
    let mut x = Polynomial::zero();
    x.set_bit(1, 1);
    let p = a.multiply(&x);
    assert_eq!(p.weight(), 1);
    assert_eq!(p.get_bit(0), 1);
}

#[test]
fn from_bits_checks_length_and_values() {
    let short = vec![0u8; 10];
    assert!(Polynomial::from_bits(&short).is_err());
    let mut bad = vec![0u8; M];
    bad[3] = 2;
    assert!(Polynomial::from_bits(&bad).is_err());
    let mut good = vec![0u8; M];
    good[3] = 1;
    good[M - 1] = 1;
    let p = Polynomial::from_bits(&good).unwrap();
    assert_eq!(p.weight(), 2);
    assert_eq!(p.get_bit(3), 1);
    assert_eq!(p.get_bit(M - 1), 1);
}

#[test]
fn positions_of_ones_lists_set_bits_in_order() {
    let p = Polynomial::from_positions(&[7, 3, 9000]);
    assert_eq!(p.positions_of_ones(), vec![3, 7, 9000]);
    assert_eq!(p.weight(), 3);
}

#[test]
fn cyclic_shift_by_m_is_identity() {
    let mut src = ThreadSource::new();
    let a = Polynomial::random_with_weight(&mut src, 17);
    assert!(a.cyclic_shift(M).equals(&a));
    assert!(a.cyclic_shift(M + 5).equals(&a.cyclic_shift(5)));
}

#[test]
fn zeroize_clears_every_bit() {
    let mut src = ThreadSource::new();
    let mut a = Polynomial::random_full(&mut src);
    a.zeroize();
    assert!(a.is_zero());
}

#[test]
fn constant_time_equality_compares_all_bytes() {
    let mut src = ThreadSource::new();
    let a = Polynomial::random_full(&mut src);
    let b = Polynomial::from_bytes(a.as_bytes());
    assert!(a.ct_bytes_equal(&b));
    let mut c = Polynomial::from_bytes(a.as_bytes());
    c.flip_bit(M - 1);
    assert!(!a.ct_bytes_equal(&c));
    assert!(!a.equals(&c));
}

#[test]
fn constant_time_shift_matches_cyclic_shift() {
    let mut p = Polynomial::zero();
    for &i in &[0usize, 1, 7, 8, 63, 1000, M - 9, M - 1] {
        p.set_bit(i, 1);
    }
    for &s in &[0usize, 1, 3, 8, 13, 4096, M - 1] {
        let direct = p.cyclic_shift(s);
        let ct = arcb_stegano_trapdoor::polynomial::cyclic_shift_bytes_ct(p.as_bytes(), s);
        assert_eq!(&ct, direct.as_bytes(), "shift {}", s);
    }
    // x^(M-1) * x = 1
    let mut top = Polynomial::zero();
    top.set_bit(M - 1, 1);
    let wrapped = arcb_stegano_trapdoor::polynomial::cyclic_shift_bytes_ct(top.as_bytes(), 1);
    assert_eq!(wrapped[0], 1);
    assert!(wrapped[1..].iter().all(|&b| b == 0));
}

#[test]
fn dense_odd_weight_element_is_invertible() {
    // 1 + x + ... + x^(M-2): weight M - 1 (odd), far from sparse.
    let mut a = Polynomial::zero();
    for i in 0..M - 1 {
        a.set_bit(i, 1);
    }
    let inv = a.invert().expect("odd weight elements are invertible");
    let mut one = Polynomial::zero();
    one.set_bit(0, 1);
    assert!(a.multiply(&inv).equals(&one));
}

use arcb_stegano_trapdoor::parameters::{M, ROW_WEIGHT};
use arcb_stegano_trapdoor::polynomial::Polynomial;
use arcb_stegano_trapdoor::utils::{check_girth, derive_secret_polynomials, shake128_xof};

#[test]
fn test_shake128_length() {
    let buf = shake128_xof(b"test", 64);
    assert_eq!(buf.len(), 64);
}

#[test]
fn test_derive_deterministic() {
    let seed = [0xABu8; 32];
    let (a0, a1) = derive_secret_polynomials(&seed).unwrap();
    let (b0, b1) = derive_secret_polynomials(&seed).unwrap();
    assert!(a0.equals(&b0));
    assert!(a1.equals(&b1));
}

#[test]
fn test_derive_weights() {
    let seed = [0xCDu8; 32];
    let (h0, h1) = derive_secret_polynomials(&seed).unwrap();
    assert_eq!(h0.weight(), ROW_WEIGHT);
    assert_eq!(h1.weight(), ROW_WEIGHT);
}

#[test]
fn test_positions_no_duplicates() {
    let count = 45;
    let modulus = M;
    let mut available = vec![1u8; modulus];
    let mut positions = vec![0usize; count];
    let mut pos_count = 0usize;

    for _idx in 0..count {
        let avail_count: usize = available.iter().map(|&v| v as usize).sum();
        let word: usize = 12345 + _idx;
        let target = word % avail_count;

        let mut cumsum = 0usize;
        for k in 0..modulus {
            let is_avail = available[k] as usize;
            let is_target = if cumsum == target && available[k] == 1 { !0usize } else { 0usize };

            let old_val = positions[pos_count];
            positions[pos_count] = (k & is_target) | (old_val & !is_target);
            available[k] = if is_target != 0 { 0 } else { available[k] };
            cumsum += is_avail;
        }
        pos_count += 1;
    }

    let unique: std::collections::HashSet<usize> = positions.iter().cloned().collect();
    assert_eq!(unique.len(), count, "all {} positions should be unique", count);
}

#[test]
fn test_derive_invertible() {
    for i in 1u8..5 {
        let seed = [i; 32];
        let (h0, h1) = derive_secret_polynomials(&seed).unwrap();
        assert!(h0.invert().is_some(), "h0 not invertible for seed {}", i);
        assert!(h1.invert().is_some(), "h1 not invertible for seed {}", i);
    }
}

#[test]
fn test_girth_check() {
    let seed = [0x42u8; 32];
    let (h0, h1) = derive_secret_polynomials(&seed).unwrap();
    let _g0 = check_girth(&h0, 6);
    let _g1 = check_girth(&h1, 6);
}

#[test]
fn shake128_known_answer() {
    // SHAKE128("") first bytes: 7f9c2ba4e88f827d616045507605853e
    let out = shake128_xof(b"", 16);
    assert_eq!(
        out,
        vec![0x7f, 0x9c, 0x2b, 0xa4, 0xe8, 0x8f, 0x82, 0x7d, 0x61, 0x60, 0x45, 0x50, 0x76, 0x05, 0x85, 0x3e]
    );
}

#[test]
fn derived_blocks_differ_between_seeds_and_halves() {
    let (a0, a1) = derive_secret_polynomials(&[1u8; 32]).unwrap();
    let (b0, _b1) = derive_secret_polynomials(&[2u8; 32]).unwrap();
    assert!(!a0.equals(&a1));
    assert!(!a0.equals(&b0));
}

#[test]
fn girth_check_small_cases() {
    // fewer than three ones: nothing to check
    let p = Polynomial::from_positions(&[0, 5]);
    assert!(check_girth(&p, 8));
    // 0 + 2 - 1 = 1 is a one but equals p_k; {0, 1, 2, 3}: 1 + 2 - 0 = 3 closes a 4-cycle
    let q = Polynomial::from_positions(&[0, 1, 2, 3]);
    assert!(!check_girth(&q, 8));
    // a small min_girth always passes
    assert!(check_girth(&q, 4));
    // {0, 1, 3}: 0+1-3, 0+3-1, 1+3-0 are -2, 2, 4 (mod M): none is a one
    let r = Polynomial::from_positions(&[0, 1, 3]);
    assert!(check_girth(&r, 8));
}

use arcb_stegano_trapdoor::keygen;
use arcb_stegano_trapdoor::parameters::{M, MAX_PAYLOAD_BYTES, SEED_BYTES, SUPERBLOCK_DIGITS};
use arcb_stegano_trapdoor::source::OsSource;
use arcb_stegano_trapdoor::stego::{
    decapsulate_stego, encapsulate_stego, encapsulate_stego_from, encapsulate_stego_with_message,
};
use arcb_stegano_trapdoor::ArcError;

#[test]
fn stego_test_stego_empty_message() {
    let kp = keygen::from_seed_without_dfr([0xCDu8; SEED_BYTES]).unwrap();
    let digits = encapsulate_stego(&kp).unwrap();
    assert_eq!(digits.len(), SUPERBLOCK_DIGITS);
    let recovered = match decapsulate_stego(&kp.seed, &digits) {
        Ok(r) => r,
        Err(e) => panic!("decapsulate_stego failed: {:?}", e),
    };
    assert_eq!(recovered.len(), 0);
}

#[test]
fn stego_test_stego_wrong_seed_fails() {
    let kp1 = keygen::from_seed_without_dfr([0x01u8; SEED_BYTES]).unwrap();
    let kp2 = keygen::from_seed_without_dfr([0x02u8; SEED_BYTES]).unwrap();
    let message = b"Secret stego message";
    let digits = encapsulate_stego_with_message(&kp1, message).unwrap();
    let result = decapsulate_stego(&kp2.seed, &digits).unwrap();
    assert_ne!(result, message, "wrong seed should not recover message");
}

#[test]
fn test_stego_corrupted_digits_fails() {
    let kp = keygen::from_seed_without_dfr([0xEFu8; SEED_BYTES]).unwrap();
    let message = b"Another secret";
    let mut digits = encapsulate_stego_with_message(&kp, message).unwrap();
    digits[0] = (digits[0] + 1) % 10;
    let result = decapsulate_stego(&kp.seed, &digits).unwrap();
    assert_ne!(result, message, "corrupted digits should not recover message");
}

#[test]
fn test_digit_range() {
    let kp = keygen::from_seed_without_dfr([0x11u8; SEED_BYTES]).unwrap();
    let digits = encapsulate_stego(&kp).unwrap();
    for &d in &digits {
        assert!(d <= 9, "Digit {} out of range", d);
    }
}

#[test]
fn overlong_message_is_rejected() {
    let kp = keygen::from_seed_without_dfr([0x11u8; SEED_BYTES]).unwrap();
    let message = vec![0u8; MAX_PAYLOAD_BYTES + 1];
    match encapsulate_stego_with_message(&kp, &message) {
        Err(ArcError::InvalidInput(_)) => {}
        other => panic!("expected InvalidInput, got {:?}", other.map(|d| d.len())),
    }
}

#[test]
fn malformed_superblocks_are_refused() {
    let seed = [0x11u8; SEED_BYTES];
    let mut digits = vec![0u8; SUPERBLOCK_DIGITS];
    digits[0] = 15;
    assert!(matches!(decapsulate_stego(&seed, &digits), Err(ArcError::InvalidInput(_))));
    let short = vec![3u8; 100];
    assert!(matches!(decapsulate_stego(&seed, &short), Err(ArcError::InvalidInput(_))));
    let big = vec![255u8; SUPERBLOCK_DIGITS];
    assert!(matches!(decapsulate_stego(&seed, &big), Err(ArcError::InvalidInput(_))));
    let empty: Vec<u8> = Vec::new();
    assert!(matches!(decapsulate_stego(&seed, &empty), Err(ArcError::InvalidInput(_))));
}

#[test]
fn mask_region_digits_show_the_mask_and_padding_is_uniform() {
    // Small digits (0-7) for clear mask bits, large digits (8, 9) for set
    // ones; a returned block's padding passes the uniformity test.
    let kp = keygen::from_seed_without_dfr([0x11u8; SEED_BYTES]).unwrap();
    let digits = encapsulate_stego_with_message(&kp, b"hi").unwrap();
    assert_eq!(digits.len(), SUPERBLOCK_DIGITS);
    let large = digits[..2 * M].iter().filter(|&&d| d > 7).count();
    // The mask is a random codeword plus the error: about half its bits are set.
    assert!(large > 2 * M * 2 / 5 && large < 2 * M * 3 / 5);
    let padding = &digits[2 * M..];
    let mut counts = [0usize; 10];
    for &d in padding {
        counts[d as usize] += 1;
    }
    let n = padding.len() as u128;
    let mut sum: u128 = 0;
    for c in counts {
        let diff = (10 * c as i128) - n as i128;
        sum += (diff * diff) as u128;
    }
    assert!(1000 * sum <= 16919 * 10 * n, "the padding passes the uniformity test");
}

#[test]
fn test_stego_roundtrip() {
    let kp = keygen::from_seed_without_dfr([0xABu8; SEED_BYTES]).unwrap();
    let message = b"Hello, ARCB steganography!";
    let digits = encapsulate_stego_with_message(&kp, message).unwrap();
    assert_eq!(digits.len(), SUPERBLOCK_DIGITS);
    let recovered = match decapsulate_stego(&kp.seed, &digits) {
        Ok(r) => r,
        Err(e) => panic!("decapsulate_stego failed: {:?}", e),
    };
    assert_eq!(recovered, message);
}

#[test]
fn test_large_payload() {
    // Verify roundtrip with large payload (8000 bytes)
    let kp = keygen::from_seed_without_dfr([0x42u8; SEED_BYTES]).unwrap();
    let message = vec![0xABu8; 8000];
    let digits = encapsulate_stego_with_message(&kp, &message).unwrap();
    assert_eq!(digits.len(), SUPERBLOCK_DIGITS);
    let recovered = decapsulate_stego(&kp.seed, &digits).unwrap();
    assert_eq!(recovered, message, "Large payload roundtrip failed");
}

#[test]
fn test_stego_roundtrip_with_message() {
    let kp = keygen::from_seed_without_dfr([0x5Eu8; SEED_BYTES]).unwrap();
    let message = b"Secret steganographic payload!";

    let digits = encapsulate_stego_with_message(&kp, message).unwrap();
    assert_eq!(digits.len(), SUPERBLOCK_DIGITS);

    let recovered = decapsulate_stego(&kp.seed, &digits).unwrap();
    assert_eq!(recovered, message);
}

#[test]
fn attack_resistance_test_test_stego_wrong_seed_fails() {
    let kp1 = keygen::from_seed_without_dfr([0x21u8; SEED_BYTES]).unwrap();
    let kp2 = keygen::from_seed_without_dfr([0x22u8; SEED_BYTES]).unwrap();
    let message = b"Secret message for Bob";

    let digits = encapsulate_stego_with_message(&kp1, message).unwrap();
    let result = decapsulate_stego(&kp2.seed, &digits);

    // Wrong seed should either fail (AuthFailed) or produce garbage
    match result {
        Ok(recovered) => assert_ne!(recovered, message, "Wrong seed should not decrypt to original"),
        Err(_) => {}
    }
}

#[test]
fn test_stego_digits_distribution() {
    let kp = keygen::from_seed_without_dfr([0x33u8; SEED_BYTES]).unwrap();
    let digits = encapsulate_stego(&kp).unwrap();

    for &d in &digits {
        assert!(d <= 9, "Digit {} out of range 0-9", d);
    }

    // Verify we have both small (0-7) and large (8-9) digits
    let small_count = digits.iter().filter(|&&d| d <= 7).count();
    let large_count = digits.iter().filter(|&&d| d >= 8).count();
    assert!(small_count > 0, "Should have small digits");
    assert!(large_count > 0, "Should have large digits (padding)");

    // Verify padding digits (last PADDING_DIGITS) are uniform 0-9
    let padding_start = 2 * M;
    let padding = &digits[padding_start..];
    let mut counts = [0usize; 10];
    for &d in padding {
        counts[d as usize] += 1;
    }
    // Padding should have all digits 0-9 represented
    for (i, &c) in counts.iter().enumerate() {
        assert!(c > 0, "Padding digit {} missing", i);
    }
}

#[test]
fn stress_test_test_stego_empty_message() {
    let kp = keygen::from_seed_without_dfr([0x01u8; SEED_BYTES]).unwrap();

    let digits = encapsulate_stego(&kp).unwrap();
    assert_eq!(digits.len(), SUPERBLOCK_DIGITS);

    let recovered = decapsulate_stego(&kp.seed, &digits).unwrap();
    assert_eq!(recovered.len(), 0, "Empty message should recover to empty");
}

#[test]
fn test_stego_single_byte() {
    let kp = keygen::from_seed_without_dfr([0x01u8; SEED_BYTES]).unwrap();
    let message = b"X";

    let digits = encapsulate_stego_with_message(&kp, message).unwrap();
    let recovered = decapsulate_stego(&kp.seed, &digits).unwrap();
    assert_eq!(recovered, message, "Single byte stego roundtrip failed");
}

#[test]
fn test_stego_invalid_digits() {
    let kp = keygen::from_seed_without_dfr([0x01u8; SEED_BYTES]).unwrap();

    // Digits with values > 9
    let mut digits = vec![0u8; SUPERBLOCK_DIGITS];
    digits[0] = 15; // invalid
    let result = decapsulate_stego(&kp.seed, &digits);
    assert!(result.is_err(), "Invalid digit should be rejected");

    // Wrong number of digits
    let short_digits = vec![0u8; 100];
    let result = decapsulate_stego(&kp.seed, &short_digits);
    assert!(result.is_err(), "Wrong digit count should be rejected");
}

#[test]
fn test_digit_distribution() {
    // A set mask bit shows as an 8 or a 9, a clear one as 0 to 7, so the mask
    // region is about half large digits; the padding is uniform, about a
    // fifth large.
    let kp = keygen::from_seed_without_dfr([0x42u8; SEED_BYTES]).unwrap();
    let digits = encapsulate_stego(&kp).unwrap();
    let mask_region = &digits[..2 * M];
    let padding_region = &digits[2 * M..];
    let mask_large = mask_region.iter().filter(|&&d| d > 7).count();
    let pad_large = padding_region.iter().filter(|&&d| d > 7).count();
    let mask_pct = 100.0 * mask_large as f64 / mask_region.len() as f64;
    let pad_pct = 100.0 * pad_large as f64 / padding_region.len() as f64;
    assert!(mask_pct > 45.0 && mask_pct < 55.0, "mask region: {:.1}% large", mask_pct);
    assert!(pad_pct > 16.0 && pad_pct < 24.0, "padding region: {:.1}% large", pad_pct);
}

#[test]
fn hiding_with_a_given_source_round_trips() {
    let kp = keygen::from_seed_without_dfr([0x5Au8; SEED_BYTES]).unwrap();
    let message = b"drawn from a source the caller holds";
    let mut source = OsSource::new();
    let digits = encapsulate_stego_from(&kp, message, &mut source).unwrap();
    assert_eq!(digits.len(), SUPERBLOCK_DIGITS);
    assert_eq!(decapsulate_stego(&kp.seed, &digits).unwrap(), message.to_vec());
    let long = vec![0u8; MAX_PAYLOAD_BYTES + 1];
    assert!(matches!(
        encapsulate_stego_from(&kp, &long, &mut source),
        Err(ArcError::InvalidInput(_))
    ));
}

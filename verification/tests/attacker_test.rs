use arcb_stegano_trapdoor::{kem, keygen, Polynomial, SEED_BYTES};

#[test]
fn attack_key_collision() {
    let mut key_map: std::collections::HashMap<Vec<u8>, [u8; SEED_BYTES]> = std::collections::HashMap::new();

    let mut collision_count = 0;
    for i in 0u8..10 {
        let seed = [i; SEED_BYTES];
        if let Ok(kp) = keygen::from_seed(seed) {
            let (_, key) = kem::encapsulate(&kp.public);
            if let Some(prev_seed) = key_map.get(&key.to_vec()) {
                println!("Key collision found! Seeds {:?} and {:?} produce same key", prev_seed, seed);
                collision_count += 1;
            }
            key_map.insert(key.to_vec(), seed);
        }
    }

    println!("Keys generated: {}", key_map.len());
    println!("Collisions found: {}", collision_count);
    assert_eq!(collision_count, 0, "Key collision detected!");
}

#[test]
fn attack_memory_dump() {
    let mut poly = Polynomial::zero();
    poly.set_bit(0, 1);
    poly.set_bit(100, 1);
    poly.set_bit(1000, 1);

    assert_eq!(poly.weight(), 3);

    poly.zeroize();
    assert_eq!(poly.weight(), 0, "Zeroized polynomial should have weight 0");
}

#[test]
fn attack_seed_bruteforce() {
    let target_seed = [0x42u8; SEED_BYTES];
    let kp = keygen::from_seed_without_dfr(target_seed).unwrap();
    let mut found = false;
    for i in 0u8..10 {
        let seed = [i; SEED_BYTES];
        if let Ok(candidate_kp) = keygen::from_seed_without_dfr(seed) {
            if candidate_kp.public.as_bytes() == kp.public.as_bytes() {
                found = true;
                break;
            }
        }
    }
    assert!(!found || target_seed[0] < 10, "Seed should not be easily brute-forced");
}

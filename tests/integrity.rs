use ztp::integrity::{calculate_hash, checksum, checksum_with_draw, verify};

#[test]
fn checksum_is_xxh3() {
    let data = b"hello chunk".to_vec();
    assert_eq!(checksum(&data), xxhash_rust::xxh3::xxh3_64(&data));
    assert_ne!(checksum(&data), checksum(b"hello chunl"));
}

#[test]
fn checksum_verifies_and_bit_flip_fails() {
    let data: Vec<u8> = (0..=255u8).collect();
    let sum = checksum(&data);
    assert!(verify(&data, sum));
    for i in [0usize, 17, 255] {
        for bit in 0..8 {
            let mut flipped = data.clone();
            flipped[i] ^= 1 << bit;
            assert!(!verify(&flipped, sum));
        }
    }
    assert!(verify(&[], checksum(&[])));
}

#[test]
fn fault_hook_spoils_under_the_chance() {
    let data = vec![1u8, 2, 3];
    assert_eq!(checksum_with_draw(&data, 29, 30), 0);
    assert_eq!(checksum_with_draw(&data, 0, 30), 0);
    assert_eq!(checksum_with_draw(&data, 30, 30), checksum(&data));
    assert_eq!(checksum_with_draw(&data, 99, 30), checksum(&data));
}

#[test]
fn fault_hook_with_random_draw() {
    let data = vec![8u8; 40];
    for _ in 0..50 {
        assert_eq!(calculate_hash(&data, 0), checksum(&data));
        assert_eq!(calculate_hash(&data, 100), 0);
        let h = calculate_hash(&data, 30);
        assert!(h == 0 || h == checksum(&data));
    }
}

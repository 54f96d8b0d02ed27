use pocket_apps::address::{
    generate_address, generate_private_key, generate_public_key, hash_public_key,
    is_valid_secret_key,
};

fn hex(s: &str) -> Vec<u8> {
    (0..s.len()).step_by(2).map(|i| u8::from_str_radix(&s[i..i + 2], 16).unwrap()).collect()
}

const GENERATOR: &str = "0479BE667EF9DCBBAC55A06295CE870B07029BFCDB2DCE28D959F2815B16F81798483ADA7726A3C4655DA4FBFC0E1108A8FD17B448A68554199C47D08FFB10D4B8";

fn order() -> [u8; 32] {
    let mut n = [0u8; 32];
    n.copy_from_slice(&hex("FFFFFFFFFFFFFFFFFFFFFFFFFFFFFFFEBAAEDCE6AF48A03BBFD25E8CD0364141"));
    n
}

#[test]
fn public_key_of_one_is_the_generator() {
    let mut secret = [0u8; 32];
    secret[31] = 1;
    assert_eq!(generate_public_key(&secret), hex(GENERATOR));
}

#[test]
fn address_of_secret_one() {
    let hash = hash_public_key(&hex(GENERATOR));
    assert_eq!(hash, hex("91b24bf9f5288532960ac687abb035127b1d28a5"));
    assert_eq!(generate_address(&hash), "1EHNa6Q4Jz2uvNExL497mE43ikXhwF6kZm");
}

#[test]
fn addresses_start_with_one() {
    assert!(generate_address(&[0u8; 20]).starts_with('1'));
    assert!(generate_address(&[0xffu8; 20]).starts_with('1'));
}

#[test]
fn leading_zero_bytes_become_ones() {
    assert_eq!(generate_address(&[0u8; 20]), "1111111111111111111114oLvT2");
    let counting: Vec<u8> = (1..=20).collect();
    assert_eq!(generate_address(&counting), "16L5yRNPTuciSgXGHqYwn9N6NeoKqopAu");
    assert_eq!(generate_address(&[]), "1Wh4bh");
}

#[test]
fn secret_key_range() {
    assert!(!is_valid_secret_key(&[0u8; 32]));
    let mut one = [0u8; 32];
    one[31] = 1;
    assert!(is_valid_secret_key(&one));
    let n = order();
    assert!(!is_valid_secret_key(&n));
    let mut below = n;
    below[31] -= 1;
    assert!(is_valid_secret_key(&below));
    let mut above = n;
    above[31] += 1;
    assert!(!is_valid_secret_key(&above));
    assert!(!is_valid_secret_key(&[0xffu8; 32]));
}

#[test]
fn generated_keys_make_addresses() {
    let secret = generate_private_key();
    if is_valid_secret_key(&secret) {
        let key = generate_public_key(&secret);
        assert_eq!(key.len(), 65);
        assert_eq!(key[0], 4);
        let address = generate_address(&hash_public_key(&key));
        assert!(address.starts_with('1'));
    }
    assert_ne!(generate_private_key(), generate_private_key());
}

use toy_rsa::rsa::first_coprime;
use toy_rsa::fast_expo;
use toy_rsa::rsa::{choose_public_exponent, key_pair_from};
use toy_rsa::{decode_message, generate_rsa_keys, pgcd, sign_message, verify_signature};

#[test]
fn test_rsa_signature() {
    let keys = generate_rsa_keys(1000).expect("key generation failed");
    let ((n, e), (_, d)) = keys;
    let message: u64 = 42;
    assert!(message < n, "the message must be below n");
    let signature = sign_message(message, (n, d));
    let decoded_message = fast_expo(signature, e, n);
    assert_eq!(decoded_message, message % n, "signature check failed");
}

#[test]
fn test_sign_message_zero() {
    let keys = generate_rsa_keys(1000).expect("key generation failed");
    let ((n, e), (_, d)) = keys;
    let message: u64 = 0;
    assert!(message < n, "the message must be below n");
    let signature = sign_message(message, (n, d));
    let decoded_message = fast_expo(signature, e, n);
    assert_eq!(decoded_message, 0, "signing 0 failed");
}

#[test]
fn key_pair_from_known_factors() {
    assert_eq!(key_pair_from(5, 11, 7), Some(((55, 7), (55, 23))));
    assert_eq!(key_pair_from(3, 11, 3), Some(((33, 3), (33, 7))));
}

#[test]
fn key_pair_from_rejects_bad_exponents() {
    assert_eq!(key_pair_from(5, 11, 4), None);
    assert_eq!(key_pair_from(5, 11, 1), None);
    assert_eq!(key_pair_from(5, 11, 40), None);
    assert_eq!(key_pair_from(2, 3, 1), None);
}

#[test]
fn key_pair_from_rejects_overflow() {
    assert_eq!(key_pair_from(4294967311, 4294967357, 65537), None);
}

#[test]
fn choose_public_exponent_prefers_65537() {
    assert_eq!(choose_public_exponent(65540), Some(65537));
    assert_eq!(choose_public_exponent(2), None);
    assert_eq!(choose_public_exponent(0), None);
}

#[test]
fn choose_public_exponent_draws_a_coprime_value() {
    for _ in 0..50 {
        let e = choose_public_exponent(10).unwrap();
        assert!(e == 3 || e == 7 || e == 9);
    }
    let e = choose_public_exponent(65537 * 2).unwrap();
    assert!(1 < e && e < 65537 * 2);
    assert_eq!(pgcd(e, 65537 * 2), 1);
}

#[test]
fn generated_keys_satisfy_the_key_invariants() {
    assert_eq!(generate_rsa_keys(0), None);
    assert_eq!(generate_rsa_keys(1), None);
    for _ in 0..20 {
        let ((n, e), (n2, d)) = generate_rsa_keys(1000).unwrap();
        assert_eq!(n, n2);
        let mut factors = Vec::new();
        for f in 2..=1000u64 {
            if n % f == 0 {
                factors.push(f);
            }
        }
        let p = factors[0];
        let q = n / p;
        assert!(p != q && q <= 1000);
        let phi = (p - 1) * (q - 1);
        assert!(1 < e && e < phi);
        assert_eq!(pgcd(e, phi), 1);
        assert_eq!((e as u128 * d as u128) % phi as u128, 1);
    }
}

#[test]
fn every_message_round_trips_under_a_fixed_key() {
    for m in 0..55u64 {
        let s = sign_message(m, (55, 23));
        assert_eq!(decode_message(s, (55, 7)), m);
        assert!(verify_signature(m, s, (55, 7)));
    }
}

#[test]
fn signing_known_values() {
    assert_eq!(sign_message(42, (55, 23)), 3);
    assert_eq!(decode_message(3, (55, 7)), 42);
    assert_eq!(decode_message(47, (55, 7)), 53);
    assert!(!verify_signature(42, 47, (55, 7)));
    assert!(verify_signature(97, 3, (55, 7)));
}

#[test]
fn generated_keys_round_trip_many_messages() {
    let ((n, e), (_, d)) = generate_rsa_keys(1000).unwrap();
    for m in 0..n.min(3000) {
        assert_eq!(decode_message(sign_message(m, (n, d)), (n, e)), m);
    }
}

#[test]
fn first_coprime_picks_the_first_coprime_candidate() {
    assert_eq!(first_coprime(&vec![2, 4, 6, 9, 7], 12), Some(7));
    assert_eq!(first_coprime(&vec![3, 2], 10), Some(3));
    assert_eq!(first_coprime(&vec![2, 4, 5, 8], 10), None);
    assert_eq!(first_coprime(&vec![], 10), None);
}

#[test]
fn choose_public_exponent_always_succeeds_on_a_prime_totient() {
    for _ in 0..50 {
        let e = choose_public_exponent(13).unwrap();
        assert!(1 < e && e < 13);
    }
    assert!(choose_public_exponent(3) == Some(2));
}

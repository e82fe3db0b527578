use toy_rsa::{are_relatively_prime, fast_expo, mod_inverse, pgcd};

fn fast_expo_brute(x: u64, n: u64, m: u64) -> u64 {
    let mut result = 1;
    for _ in 0..n {
        result = (result * x) % m;
    }
    result
}

fn repeated_product(x: u64, n: u64, m: u64) -> u64 {
    let mut result = 1 % m;
    for _ in 0..n {
        result = (result * x) % m;
    }
    result
}

#[test]
fn test_fast_expo() {
    assert_eq!(fast_expo(2, 3, 5), 3);
    assert_eq!(fast_expo(10, 0, 7), 1);
    assert_eq!(fast_expo(10, 5, 1), 0);
    assert_eq!(
        fast_expo(123456789, 12345, 1000000007),
        fast_expo_brute(123456789, 12345, 1000000007)
    );
}

#[test]
fn fast_expo_known_value() {
    assert_eq!(fast_expo(123456789, 12345, 1000000007), 614455772);
}

#[test]
fn fast_expo_agrees_with_brute_force_on_small_inputs() {
    for m in 1..20u64 {
        for x in 0..25u64 {
            for n in 0..30u64 {
                assert_eq!(fast_expo(x, n, m), repeated_product(x, n, m));
            }
        }
    }
}

#[test]
fn fast_expo_zero_exponent_and_unit_modulus() {
    assert_eq!(fast_expo(0, 0, 5), 1);
    assert_eq!(fast_expo(0, 0, 1), 0);
    assert_eq!(fast_expo(10, 0, 1), 0);
    assert_eq!(fast_expo(u64::MAX, u64::MAX, 1), 0);
    assert_eq!(fast_expo(0, 5, 7), 0);
}

#[test]
fn fast_expo_largest_values() {
    // Modulo 2^64 - 2, 2^64 - 1 is 1 and 2^64 - 3 is -1.
    let m = u64::MAX - 1;
    assert_eq!(fast_expo(u64::MAX, 3, m), 1);
    assert_eq!(fast_expo(m - 1, 2, m), 1);
    assert_eq!(fast_expo(m - 1, 3, m), m - 1);
}

#[test]
fn test_pgcd() {
    assert_eq!(pgcd(54, 24), 6);
    assert_eq!(pgcd(48, 18), 6);
    assert_eq!(pgcd(101, 10), 1);
    assert_eq!(pgcd(0, 5), 5);
    assert_eq!(pgcd(5, 0), 5);
    assert_eq!(pgcd(0, 0), 0);
    assert_eq!(pgcd(7, 7), 7);
    assert_eq!(pgcd(100, 100), 100);
}

#[test]
fn pgcd_is_symmetric() {
    for a in 0..60u64 {
        for b in 0..60u64 {
            assert_eq!(pgcd(a, b), pgcd(b, a));
        }
    }
    assert_eq!(pgcd(u64::MAX, 3), 3);
}

#[test]
fn test_are_relatively_prime() {
    assert!(are_relatively_prime(14, 15));
    assert!(are_relatively_prime(17, 31));
    assert!(are_relatively_prime(1, 100));
    assert!(are_relatively_prime(13, 27));
    assert!(!are_relatively_prime(14, 21));
    assert!(!are_relatively_prime(100, 10));
    assert!(!are_relatively_prime(12, 18));
    assert!(!are_relatively_prime(0, 5));
    assert!(!are_relatively_prime(0, 0));
}

#[test]
fn relatively_prime_with_one_and_zero() {
    assert!(are_relatively_prime(0, 1));
    assert!(are_relatively_prime(1, 0));
}

#[test]
fn test_mod_inverse() {
    assert_eq!(mod_inverse(7, 40), Some(23));
    assert_eq!(mod_inverse(3, 10), Some(7));
}

#[test]
fn test_mod_inverse_failure() {
    assert_eq!(mod_inverse(2, 4), None);
}

#[test]
fn mod_inverse_edges() {
    assert_eq!(mod_inverse(5, 0), None);
    assert_eq!(mod_inverse(5, 1), None);
    assert_eq!(mod_inverse(1, 2), Some(1));
    assert_eq!(mod_inverse(47, 40), Some(23));
    assert_eq!(mod_inverse(65537, 65540), Some(43693));
}

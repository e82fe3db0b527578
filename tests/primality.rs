use toy_rsa::primality::first_probable_prime;
use toy_rsa::{generate_random_prime, is_probably_prime};

#[test]
fn test_is_probably_prime() {
    let primes = [2, 3, 5, 7, 11, 13, 17, 19, 23, 29, 31, 997, 1009, 104729];
    for &p in &primes {
        assert!(is_probably_prime(p), "{} should be prime", p);
    }
    let non_primes = [0, 1, 4, 6, 8, 9, 10, 12, 14, 15, 16, 1000, 1001, 104728];
    for &np in &non_primes {
        assert!(!is_probably_prime(np), "{} should not be prime", np);
    }
}

fn is_prime_by_trial_division(n: u64) -> bool {
    if n < 2 {
        return false;
    }
    let mut d = 2;
    while d * d <= n {
        if n % d == 0 {
            return false;
        }
        d += 1;
    }
    true
}

#[test]
fn probable_primes_match_trial_division_below_ten_thousand() {
    for n in 0..10000u64 {
        assert_eq!(is_probably_prime(n), is_prime_by_trial_division(n), "{}", n);
    }
}

#[test]
fn carmichael_number_passes_the_fixed_witnesses() {
    // 29341 = 13 * 37 * 61 fools every witness it is coprime to.
    assert!(is_probably_prime(29341));
    assert!(!is_prime_by_trial_division(29341));
}

#[test]
fn large_prime_and_composite() {
    assert!(is_probably_prime(1000000007));
    assert!(!is_probably_prime(1000000007 * 3));
    assert!(!is_probably_prime(u64::MAX));
}

#[test]
fn test_generate_random_prime() {
    if let Some(p) = generate_random_prime(30) {
        assert!(p <= 30);
        assert!(is_probably_prime(p));
    } else {
        panic!("no prime found in the range (max = 30).");
    }
    if let Some(p) = generate_random_prime(20000000000) {
        assert!(p <= 20000000000);
        assert!(is_probably_prime(p));
    } else {
        panic!("no prime found in the range (max = 20000000000).");
    }
    assert_eq!(generate_random_prime(1), None);
}

#[test]
fn generate_random_prime_small_bounds() {
    assert_eq!(generate_random_prime(0), None);
    assert_eq!(generate_random_prime(1), None);
    assert_eq!(generate_random_prime(2), Some(2));
}

#[test]
fn generate_random_prime_draws_more_than_the_lowest_value() {
    let mut seen_other = false;
    for _ in 0..100 {
        let p = generate_random_prime(30).unwrap();
        assert!((2..=30).contains(&p));
        assert!(is_prime_by_trial_division(p));
        if p != 2 {
            seen_other = true;
        }
    }
    assert!(seen_other);
}

#[test]
fn generate_random_prime_at_the_largest_bound() {
    let p = generate_random_prime(u64::MAX).unwrap();
    assert!(p >= 2);
    assert!(is_probably_prime(p));
}

#[test]
fn first_probable_prime_picks_the_first_passing_candidate() {
    assert_eq!(first_probable_prime(&vec![4, 9, 7, 11]), Some(7));
    assert_eq!(first_probable_prime(&vec![13, 2]), Some(13));
    assert_eq!(first_probable_prime(&vec![0, 1, 4, 1001]), None);
    assert_eq!(first_probable_prime(&vec![]), None);
    assert_eq!(first_probable_prime(&vec![29341, 5]), Some(29341));
}

#[test]
fn generate_random_prime_always_succeeds_up_to_three() {
    for _ in 0..50 {
        let p = generate_random_prime(3).unwrap();
        assert!(p == 2 || p == 3);
    }
}

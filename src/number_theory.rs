//! Primes, binomial coefficients and Fermat's little theorem.

use vstd::arithmetic::div_mod::*;
use vstd::arithmetic::mul::*;
use vstd::arithmetic::power::*;
use vstd::prelude::*;

verus! {

/// `p` is a prime: at least 2 and with no divisor strictly between 1 and `p`.
pub open spec fn is_prime(p: nat) -> bool {
    p >= 2 && forall|k: nat| 2 <= k < p ==> #[trigger] (p % k) != 0
}

/// Euclid's lemma: a prime that divides `a * b` and not `a` divides `b`.
pub proof fn lemma_prime_divides_factor(p: nat, a: nat, b: int)
    requires
        is_prime(p),
        0 < a < p,
        (a * b) % (p as int) == 0,
    ensures
        b % (p as int) == 0,
    decreases a,
{
    if a == 1 {
        lemma_mul_basics(b);
    } else {
        let r: nat = p % a;
        let s: int = (p / a) as int;
        let t: int = (a * b) / (p as int);
        assert(r != 0) by {
            assert(2 <= a < p);
            assert(p % a != 0);
        }
        lemma_fundamental_div_mod(p as int, a as int);
        lemma_fundamental_div_mod(a * b, p as int);
        lemma_remainder(p as int, a as int);
        assert(r * b == (p as int) * (b - s * t)) by (nonlinear_arith)
            requires
                p == a * s + r,
                a * b == (p as int) * t + 0,
        ;
        lemma_mul_is_commutative(p as int, b - s * t);
        lemma_mod_multiples_basic(b - s * t, p as int);
        lemma_prime_divides_factor(p, r, b);
    }
}

/// The binomial coefficient `n` choose `k`, by Pascal's rule.
pub open spec fn binom(n: nat, k: nat) -> nat
    decreases n,
{
    if k == 0 {
        1
    } else if n == 0 {
        0
    } else {
        binom((n - 1) as nat, (k - 1) as nat) + binom((n - 1) as nat, k)
    }
}

/// Choosing more than `n` items out of `n` is impossible; all of them, one way.
proof fn lemma_binom_top(n: nat, k: nat)
    ensures
        k > n ==> binom(n, k) == 0,
        binom(n, n) == 1,
    decreases n,
{
    if n > 0 {
        lemma_binom_top((n - 1) as nat, (k - 1) as nat);
        lemma_binom_top((n - 1) as nat, k);
        lemma_binom_top((n - 1) as nat, n);
    }
}

/// Absorption: `k * (n choose k) == n * (n - 1 choose k - 1)`.
proof fn lemma_binom_absorption(n: nat, k: nat)
    requires
        n >= 1,
        k >= 1,
    ensures
        k * binom(n, k) == n * binom((n - 1) as nat, (k - 1) as nat),
    decreases n,
{
    let m: nat = (n - 1) as nat;
    if m == 0 {
        lemma_binom_top(0, k);
        if k > 1 {
            lemma_binom_top(0, (k - 1) as nat);
        }
    } else {
        let a = binom(m, (k - 1) as nat);
        let b = binom(m, k);
        assert(binom(n, k) == a + b);
        if k == 1 {
            lemma_binom_absorption(m, 1);
            assert(binom(m, 0) == 1);
            assert(1 * b == m * 1);
            assert(k * binom(n, k) == n * binom(m, 0)) by (nonlinear_arith)
                requires
                    k == 1,
                    binom(n, k) == 1 + b,
                    b == m,
                    n == m + 1,
                    binom(m, 0) == 1,
            ;
        } else {
            lemma_binom_absorption(m, k);
            lemma_binom_absorption(m, (k - 1) as nat);
            let c = binom((m - 1) as nat, (k - 1) as nat);
            let c2 = binom((m - 1) as nat, (k - 2) as nat);
            assert(a == c2 + c);
            assert(k * binom(n, k) == n * a) by (nonlinear_arith)
                requires
                    binom(n, k) == a + b,
                    k * b == m * c,
                    (k - 1) * a == m * c2,
                    a == c2 + c,
                    n == m + 1,
            ;
        }
    }
}

/// A prime divides each of its binomial coefficients but the two outer ones.
pub proof fn lemma_prime_divides_binom(p: nat, k: nat)
    requires
        is_prime(p),
        0 < k < p,
    ensures
        (binom(p, k) as int) % (p as int) == 0,
{
    lemma_binom_absorption(p, k);
    let c = binom((p - 1) as nat, (k - 1) as nat);
    lemma_mul_is_commutative(p as int, c as int);
    lemma_mod_multiples_basic(c as int, p as int);
    lemma_prime_divides_factor(p, k, binom(p, k) as int);
}

/// The terms of index `0..=k` of the expansion of `(x + 1)` to the power `n`:
/// the sum of `(n choose j) * x^j`.
pub open spec fn binom_sum(x: int, n: nat, k: int) -> int
    decreases k + 1,
{
    if k < 0 {
        0
    } else {
        binom_sum(x, n, k - 1) + binom(n, k as nat) * pow(x, k as nat)
    }
}

/// Pascal's rule carried over to partial sums of the expansion.
proof fn lemma_binom_sum_pascal(x: int, n: nat, k: int)
    requires
        k >= 0,
    ensures
        binom_sum(x, n + 1, k) == binom_sum(x, n, k) + x * binom_sum(x, n, k - 1),
    decreases k,
{
    reveal(pow);
    reveal_with_fuel(binom_sum, 2);
    if k == 0 {
        let n1: nat = n + 1;
        assert(binom(n1, 0) == 1);
        assert(pow(x, 0) == 1);
        assert(binom_sum(x, n1, -1) == 0);
        assert(binom_sum(x, n1, 0) == binom_sum(x, n1, -1) + binom(n1, 0) * pow(x, 0));
        assert(binom_sum(x, n, 0) == 1);
    } else {
        lemma_binom_sum_pascal(x, n, k - 1);
        let s1 = binom_sum(x, n, k - 1);
        let s2 = binom_sum(x, n, k - 2);
        let b1 = binom(n, (k - 1) as nat);
        let b0 = binom(n, k as nat);
        let pk = pow(x, (k - 1) as nat);
        assert(binom((n + 1) as nat, k as nat) == b1 + b0);
        assert(pow(x, k as nat) == x * pk);
        assert(binom_sum(x, n, k - 1) == s2 + b1 * pk);
        assert(binom_sum(x, n + 1, k - 1) + (b1 + b0) * (x * pk) == s1 + b0 * (x * pk) + x * (s2
            + b1 * pk)) by (nonlinear_arith)
            requires
                binom_sum(x, n + 1, k - 1) == s1 + x * s2,
                s1 == s2 + b1 * pk,
        ;
    }
}

/// The binomial theorem for `(x + 1)` to the power `n`.
proof fn lemma_binomial_theorem(x: int, n: nat)
    ensures
        pow(x + 1, n) == binom_sum(x, n, n as int),
    decreases n,
{
    reveal(pow);
    reveal_with_fuel(binom_sum, 2);
    if n == 0 {
        assert(binom_sum(x, 0, 0) == 1);
    } else {
        let m: nat = (n - 1) as nat;
        lemma_binomial_theorem(x, m);
        lemma_binom_sum_pascal(x, m, n as int);
        lemma_binom_top(m, n);
        let s = binom_sum(x, m, m as int);
        assert(binom_sum(x, m, n as int) == s);
        assert((x + 1) * s == s + x * s) by (nonlinear_arith);
    }
}

/// Modulo a prime `p`, the terms of the expansion strictly between the first
/// and the last vanish.
proof fn lemma_expansion_mod_prime(x: int, p: nat, k: int)
    requires
        is_prime(p),
        0 <= k < p,
    ensures
        (binom_sum(x, p, k) - 1) % (p as int) == 0,
    decreases k,
{
    reveal(pow);
    reveal_with_fuel(binom_sum, 2);
    if k == 0 {
        assert(binom_sum(x, p, 0) == 1);
    } else {
        lemma_expansion_mod_prime(x, p, k - 1);
        lemma_prime_divides_binom(p, k as nat);
        let b = binom(p, k as nat) as int;
        let t = pow(x, k as nat);
        lemma_mul_mod_noop_left(b, t, p as int);
        lemma_mul_basics(t);
        lemma_small_mod(0, p);
        assert((b * t) % (p as int) == 0);
        lemma_add_mod_noop(binom_sum(x, p, k - 1) - 1, b * t, p as int);
        assert(binom_sum(x, p, k) - 1 == (binom_sum(x, p, k - 1) - 1) + b * t);
    }
}

/// Fermat's little theorem: `x^p` and `x` agree modulo a prime `p`.
pub proof fn lemma_fermat_little(x: nat, p: nat)
    requires
        is_prime(p),
    ensures
        pow(x as int, p) % (p as int) == (x as int) % (p as int),
    decreases x,
{
    if x == 0 {
        lemma0_pow(p);
        lemma_small_mod(0, p);
    } else {
        let y: nat = (x - 1) as nat;
        let pi = p as int;
        lemma_fermat_little(y, p);
        lemma_binomial_theorem(y as int, p);
        lemma_binom_top(p, p);
        lemma_expansion_mod_prime(y as int, p, p - 1);
        assert(binom_sum(y as int, p, p as int) == binom_sum(y as int, p, p - 1) + pow(y as int, p));
        lemma_mod_equivalence(pow(y as int, p), y as int, pi);
        lemma_add_mod_noop(binom_sum(y as int, p, p - 1) - 1, pow(y as int, p) - y, pi);
        lemma_small_mod(0, p);
        assert(pow(x as int, p) == pow(y as int + 1, p));
        assert((binom_sum(y as int, p, p - 1) - 1) + (pow(y as int, p) - y) == pow(x as int, p)
            - x);
        lemma_mod_equivalence(pow(x as int, p), x as int, pi);
    }
}

/// For `x` not divisible by the prime `p`, `x^(p - 1)` is 1 modulo `p`.
pub proof fn lemma_fermat_coprime(x: nat, p: nat)
    requires
        is_prime(p),
        x % p != 0,
    ensures
        pow(x as int, (p - 1) as nat) % (p as int) == 1,
{
    let pi = p as int;
    let y = pow(x as int, (p - 1) as nat);
    lemma_fermat_little(x, p);
    reveal(pow);
    assert(pow(x as int, p) == x * y);
    lemma_mod_equivalence(x * y, x as int, pi);
    lemma_mul_is_distributive_sub(x as int, y, 1);
    lemma_mul_mod_noop_left(x as int, y - 1, pi);
    lemma_remainder(x as int, pi);
    lemma_prime_divides_factor(p, x % p, y - 1);
    lemma_mod_equivalence(y, 1, pi);
    lemma_small_mod(1, p);
}

/// Raising `m` to `1 + (p - 1) * k` gives back `m` modulo a prime `p`.
pub proof fn lemma_pow_one_plus_multiple(m: nat, p: nat, k: nat)
    requires
        is_prime(p),
    ensures
        pow(m as int, 1 + ((p - 1) as nat) * k) % (p as int) == (m as int) % (p as int),
{
    let pi = p as int;
    let t: nat = ((p - 1) as nat) * k;
    let y = pow(m as int, t);
    reveal(pow);
    assert(pow(m as int, 1 + t) == m * y);
    lemma_pow_multiplies(m as int, (p - 1) as nat, k);
    if m % p == 0 {
        lemma_mul_mod_noop_left(m as int, y, pi);
        lemma_mul_basics(y);
        lemma_small_mod(0, p);
    } else {
        lemma_fermat_coprime(m, p);
        lemma_pow_mod_noop(pow(m as int, (p - 1) as nat), k, pi);
        lemma1_pow(k);
        lemma_small_mod(1, p);
        lemma_mul_mod_noop_right(m as int, y, pi);
        lemma_mul_basics(m as int);
    }
}

/// A number divisible by two distinct primes is divisible by their product.
pub proof fn lemma_divisible_by_product(x: int, p: nat, q: nat)
    requires
        is_prime(p),
        is_prime(q),
        p != q,
        x % (p as int) == 0,
        x % (q as int) == 0,
    ensures
        x % ((p * q) as int) == 0,
{
    let pi = p as int;
    let qi = q as int;
    let s = x / pi;
    lemma_fundamental_div_mod(x, pi);
    assert(x == pi * s);
    assert(p % q != 0) by {
        if q > p {
            lemma_small_mod(p, q);
        }
    }
    lemma_mul_mod_noop_left(pi, s, qi);
    lemma_remainder(pi, qi);
    lemma_prime_divides_factor(q, p % q, s);
    lemma_fundamental_div_mod(s, qi);
    let t = s / qi;
    lemma_mul_is_associative(pi, qi, t);
    lemma_mul_is_commutative((p * q) as int, t);
    lemma_mul_strictly_positive(pi, qi);
    lemma_mod_multiples_basic(t, (p * q) as int);
}

} // verus!

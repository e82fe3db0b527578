//! Modular exponentiation, greatest common divisors and modular inverses.

use vstd::arithmetic::div_mod::*;
use vstd::arithmetic::mul::*;
use vstd::arithmetic::power::*;
use vstd::prelude::*;

verus! {

/// `b` raised to `e`, reduced modulo `m`: `b` multiplied by itself `e` times.
pub open spec fn mod_pow(b: int, e: nat, m: int) -> int {
    pow(b, e) % m
}

/// `x` multiplied into 1 `n` times, reducing modulo `m` after each product.
pub open spec fn repeated_mul_mod(x: int, n: nat, m: int) -> int
    decreases n,
{
    if n == 0 {
        1int % m
    } else {
        (repeated_mul_mod(x, (n - 1) as nat, m) * x) % m
    }
}

/// Reducing once at the end and reducing after every product agree.
pub proof fn lemma_mod_pow_is_repeated_mul(x: int, n: nat, m: int)
    requires
        m >= 1,
    ensures
        mod_pow(x, n, m) == repeated_mul_mod(x, n, m),
    decreases n,
{
    reveal(pow);
    if n > 0 {
        let y = pow(x, (n - 1) as nat);
        lemma_mod_pow_is_repeated_mul(x, (n - 1) as nat, m);
        lemma_mul_mod_noop_left(y, x, m);
        lemma_mul_is_commutative(x, y);
    }
}

/// One step of square-and-multiply keeps the accumulated value congruent.
proof fn lemma_square_step(r: int, b: int, e: nat, m: int)
    requires
        m > 0,
    ensures
        e % 2 == 1 ==> ((r * b) % m * pow((b * b) % m, e / 2)) % m == (r * pow(b, e)) % m,
        e % 2 == 0 ==> (r * pow((b * b) % m, e / 2)) % m == (r * pow(b, e)) % m,
{
    let h: nat = e / 2;
    let p = pow(b * b, h);
    let q = pow((b * b) % m, h);
    lemma_square_is_pow2(b);
    lemma_pow_multiplies(b, 2, h);
    lemma_pow_mod_noop(b * b, h, m);
    lemma_mul_mod_noop_right(r, q, m);
    lemma_mul_mod_noop_right(r, p, m);
    if e % 2 == 1 {
        reveal(pow);
        assert(pow(b, e) == b * pow(b, (e - 1) as nat));
        assert((e - 1) as nat == 2 * h);
        lemma_mul_mod_noop_left(r * b, q, m);
        lemma_mul_mod_noop_right(r * b, q, m);
        lemma_mul_mod_noop_right(r * b, p, m);
        lemma_mul_is_associative(r, b, p);
    } else {
        assert(e == 2 * h);
    }
}

/// Computes `x` to the power `n` modulo `m` by binary exponentiation, with
/// every product carried in 128 bits.
pub fn fast_expo(x: u64, n: u64, m: u64) -> (r: u64)
    requires
        m >= 1,
    ensures
        r == mod_pow(x as int, n as nat, m as int),
        r < m,
        n == 0 ==> r == 1int % (m as int),
        m == 1 ==> r == 0,
{
    let mm: u128 = m as u128;
    let mut result: u128 = 1u128 % mm;
    let mut base: u128 = (x % m) as u128;
    let mut exp: u64 = n;
    proof {
        reveal(pow);
        lemma_pow_mod_noop(x as int, n as nat, m as int);
        lemma_mul_mod_noop_right(1, pow((x % m) as int, n as nat), m as int);
        lemma_mul_mod_noop_left(1, pow((x % m) as int, n as nat), m as int);
    }
    while exp > 0
        invariant
            mm == m as u128,
            m >= 1,
            result < mm,
            base < mm,
            (result * pow(base as int, exp as nat)) % (m as int) == pow(x as int, n as nat) % (m as int),
        decreases exp,
    {
        proof {
            lemma_square_step(result as int, base as int, exp as nat, m as int);
            assert(base * base < 0x1_0000_0000_0000_0000_0000_0000_0000_0000) by (nonlinear_arith)
                requires
                    base < mm,
                    mm <= 0xffff_ffff_ffff_ffff,
            ;
            assert(result * base < 0x1_0000_0000_0000_0000_0000_0000_0000_0000) by (nonlinear_arith)
                requires
                    base < mm,
                    result < mm,
                    mm <= 0xffff_ffff_ffff_ffff,
            ;
        }
        if exp % 2 == 1 {
            result = (result * base) % mm;
        }
        base = (base * base) % mm;
        exp = exp / 2;
    }
    proof {
        reveal(pow);
        assert(pow(base as int, 0) == 1);
        lemma_small_mod(result as nat, m as nat);
    }
    result as u64
}

/// The greatest common divisor, by Euclid's recurrence; `gcd(a, 0) == a`.
pub open spec fn gcd(a: nat, b: nat) -> nat
    decreases b,
{
    if b == 0 {
        a
    } else {
        gcd(b, a % b)
    }
}

/// `gcd` is symmetric, leaves a number unchanged against zero, and is zero
/// only on two zeros.
pub proof fn lemma_gcd_commutative(a: nat, b: nat)
    ensures
        gcd(a, b) == gcd(b, a),
        gcd(a, 0) == a,
        gcd(0, b) == b,
{
    reveal_with_fuel(gcd, 3);
    if a < b {
        lemma_small_mod(a, b);
    } else if b < a {
        lemma_small_mod(b, a);
    }
    if b > 0 {
        lemma_small_mod(0, b);
    }
}

/// `gcd(a, b)` is positive unless both are zero, and divides both.
pub proof fn lemma_gcd_divides(a: nat, b: nat)
    requires
        a > 0 || b > 0,
    ensures
        gcd(a, b) > 0,
        a % gcd(a, b) == 0,
        b % gcd(a, b) == 0,
    decreases b,
{
    if b == 0 {
        lemma_mod_self_0(a as int);
        lemma_small_mod(0, a);
    } else {
        let r: nat = a % b;
        lemma_gcd_divides(b, r);
        let g = gcd(b, r);
        let q = a / b;
        lemma_fundamental_div_mod(a as int, b as int);
        lemma_fundamental_div_mod(b as int, g as int);
        lemma_fundamental_div_mod(r as int, g as int);
        let s = (b / g) as int;
        let t = (r / g) as int;
        assert(a == g * (s * q + t)) by (nonlinear_arith)
            requires
                a == b * q + r,
                b == g * s + 0,
                r == g * t + 0,
        ;
        lemma_mul_is_commutative(g as int, s * q + t);
        lemma_mod_multiples_basic(s * q + t, g as int);
    }
}

/// Bezout's identity: integers `x` and `y` with `a * x + b * y == gcd(a, b)`.
pub proof fn lemma_bezout(a: nat, b: nat) -> (xy: (int, int))
    ensures
        a * xy.0 + b * xy.1 == gcd(a, b),
    decreases b,
{
    if b == 0 {
        (1, 0)
    } else {
        let r: nat = a % b;
        let (x1, y1) = lemma_bezout(b, r);
        let q = (a / b) as int;
        lemma_fundamental_div_mod(a as int, b as int);
        assert(a * y1 + b * (x1 - q * y1) == b * x1 + r * y1) by (nonlinear_arith)
            requires
                a == b * q + r,
        ;
        (y1, x1 - q * y1)
    }
}

/// `gcd(a, b)` is the greatest common divisor: every common divisor of `a`
/// and `b` divides it.
pub proof fn lemma_common_divisor_divides_gcd(a: nat, b: nat, d: nat)
    requires
        d > 0,
        a % d == 0,
        b % d == 0,
    ensures
        gcd(a, b) % d == 0,
{
    let (x, y) = lemma_bezout(a, b);
    let di = d as int;
    lemma_fundamental_div_mod(a as int, di);
    lemma_fundamental_div_mod(b as int, di);
    let s = (a / d) as int;
    let t = (b / d) as int;
    assert(gcd(a, b) == di * (s * x + t * y)) by (nonlinear_arith)
        requires
            a * x + b * y == gcd(a, b),
            a == di * s + 0,
            b == di * t + 0,
    ;
    lemma_mul_is_commutative(di, s * x + t * y);
    lemma_mod_multiples_basic(s * x + t * y, di);
}

/// For a modulus `phi` of at least 2, `e` has an inverse modulo `phi`
/// exactly when `e` and `phi` are coprime.
pub proof fn lemma_inverse_exists_iff_coprime(e: nat, phi: nat)
    requires
        phi >= 2,
    ensures
        (exists|d: int| is_inverse_mod(e as int, d, phi as int)) <==> gcd(e, phi) == 1,
{
    let m = phi as int;
    if exists|d: int| is_inverse_mod(e as int, d, m) {
        let d = choose|d: int| is_inverse_mod(e as int, d, m);
        lemma_gcd_divides(e, phi);
        let g = gcd(e, phi);
        let k = (e * d) / m;
        lemma_fundamental_div_mod(e * d, m);
        lemma_fundamental_div_mod(e as int, g as int);
        lemma_fundamental_div_mod(m, g as int);
        let s = (e / g) as int;
        let t = (phi / g) as int;
        assert(g == 1) by (nonlinear_arith)
            requires
                e * d == m * k + 1,
                e == g * s + 0,
                m == g * t + 0,
                g > 0,
        {
            assert(g * (s * d - t * k) == 1);
        }
    }
    if gcd(e, phi) == 1 {
        let (x, y) = lemma_bezout(e, phi);
        let d = x % m;
        lemma_mod_bound(x, m);
        lemma_mul_mod_noop_right(e as int, x, m);
        lemma_mul_is_commutative(m, y);
        assert((e * x + m * y) % m == (e * x) % m) by {
            lemma_mod_multiples_vanish(y, e * x, m);
        }
        lemma_small_mod(1, phi);
        if d == 0 {
            lemma_mul_basics(e as int);
            lemma_small_mod(0, phi);
        }
        assert(is_inverse_mod(e as int, d, m));
    }
}

/// Computes the greatest common divisor of `a` and `b` by Euclid's algorithm.
pub fn pgcd(a: u64, b: u64) -> (r: u64)
    ensures
        r == gcd(a as nat, b as nat),
{
    let mut x: u64 = a;
    let mut y: u64 = b;
    while y > 0
        invariant
            gcd(x as nat, y as nat) == gcd(a as nat, b as nat),
        decreases y,
    {
        let t: u64 = x % y;
        x = y;
        y = t;
    }
    x
}

/// Whether `a` and `b` have no common divisor but 1.
pub fn are_relatively_prime(a: u64, b: u64) -> (r: bool)
    ensures
        r == (gcd(a as nat, b as nat) == 1),
{
    pgcd(a, b) == 1
}

/// `d` is an inverse of `e` modulo `phi` in the range `[1, phi)`.
pub open spec fn is_inverse_mod(e: int, d: int, phi: int) -> bool {
    1 <= d < phi && (e * d) % phi == 1
}

/// Searches `[1, phi)` for the smallest `d` with `e * d` congruent to 1
/// modulo `phi`; `None` when there is none, which for `phi >= 2` is when `e`
/// and `phi` share a factor.
pub fn mod_inverse(e: u64, phi: u64) -> (r: Option<u64>)
    ensures
        phi >= 2 ==> (r is Some <==> gcd(e as nat, phi as nat) == 1),
        match r {
            Some(d) => is_inverse_mod(e as int, d as int, phi as int) && forall|k: int|
                1 <= k < d ==> !is_inverse_mod(e as int, k, phi as int),
            None => forall|k: int| !is_inverse_mod(e as int, k, phi as int),
        },
{
    let mut d: u64 = 1;
    while d < phi
        invariant
            1 <= d,
            forall|k: int| 1 <= k < d ==> !is_inverse_mod(e as int, k, phi as int),
        decreases phi - d,
    {
        proof {
            lemma_mul_upper_bound(e as int, 0xffff_ffff_ffff_ffff, d as int, 0xffff_ffff_ffff_ffff);
        }
        if (e as u128 * d as u128) % (phi as u128) == 1 {
            proof {
                assert(is_inverse_mod(e as int, d as int, phi as int));
                if phi >= 2 {
                    lemma_inverse_exists_iff_coprime(e as nat, phi as nat);
                }
            }
            return Some(d);
        }
        d = d + 1;
    }
    proof {
        if phi >= 2 {
            lemma_inverse_exists_iff_coprime(e as nat, phi as nat);
        }
    }
    None
}

} // verus!

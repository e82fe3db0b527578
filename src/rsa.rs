//! RSA key pairs over 64-bit moduli, raw signing and decoding.

use crate::arith::{are_relatively_prime, fast_expo, gcd, is_inverse_mod, mod_inverse, mod_pow};
use crate::number_theory::{is_prime, lemma_divisible_by_product, lemma_pow_one_plus_multiple};
use crate::primality::{generate_random_prime, is_fermat_probable_prime, random_between, MAX_ATTEMPTS};
use vstd::arithmetic::div_mod::*;
use vstd::arithmetic::mul::*;
use vstd::arithmetic::power::*;
use vstd::prelude::*;

verus! {

/// The public exponent tried first.
pub const PREFERRED_EXPONENT: u64 = 65537;

/// The totient `(p - 1) * (q - 1)` of the modulus `p * q`.
pub open spec fn totient(p: int, q: int) -> int {
    (p - 1) * (q - 1)
}

/// `((n, e), (n, d))` is a key pair built on the factors `p` and `q`.
pub open spec fn is_key_pair(p: int, q: int, n: int, e: int, d: int) -> bool {
    &&& n == p * q
    &&& 1 < e < totient(p, q)
    &&& gcd(e as nat, totient(p, q) as nat) == 1
    &&& is_inverse_mod(e, d, totient(p, q))
}

/// `p` and `q` could both come out of `generate_random_prime(max)` and differ.
pub open spec fn are_drawn_factors(max: int, p: int, q: int) -> bool {
    &&& 2 <= p <= max
    &&& 2 <= q <= max
    &&& p != q
    &&& is_fermat_probable_prime(p)
    &&& is_fermat_probable_prime(q)
}

/// Builds the key pair on the factors `p` and `q` with public exponent `e`,
/// whose private exponent is the smallest inverse of `e` modulo the totient.
/// `None` exactly when `p * q` or the totient overflows 64 bits, or when `e`
/// is not in `(1, totient)` or shares a factor with it.
pub fn key_pair_from(p: u64, q: u64, e: u64) -> (r: Option<((u64, u64), (u64, u64))>)
    requires
        2 <= p,
        2 <= q,
    ensures
        r is Some <==> {
            &&& p * q <= u64::MAX
            &&& totient(p as int, q as int) <= u64::MAX
            &&& 1 < e < totient(p as int, q as int)
            &&& gcd(e as nat, totient(p as int, q as int) as nat) == 1
        },
        r matches Some(((n, e2), (n2, d))) ==> {
            &&& e2 == e
            &&& n2 == n
            &&& is_key_pair(p as int, q as int, n as int, e as int, d as int)
            &&& forall|k: int| 1 <= k < d ==> !is_inverse_mod(e as int, k, totient(p as int, q as int))
        },
{
    let n: u64 = match p.checked_mul(q) {
        Some(v) => v,
        None => return None,
    };
    let phi: u64 = match (p - 1).checked_mul(q - 1) {
        Some(v) => v,
        None => return None,
    };
    if !(1 < e && e < phi && are_relatively_prime(e, phi)) {
        return None;
    }
    match mod_inverse(e, phi) {
        Some(d) => Some(((n, e), (n, d))),
        None => None,
    }
}

/// The candidate at index `i` is coprime to `phi` and none before it is.
pub open spec fn is_first_coprime(candidates: Seq<u64>, phi: u64, i: int) -> bool {
    &&& 0 <= i < candidates.len()
    &&& gcd(candidates[i] as nat, phi as nat) == 1
    &&& forall|j: int| 0 <= j < i ==> gcd(#[trigger] candidates[j] as nat, phi as nat) != 1
}

/// The first of `candidates` that is coprime to `phi`; `None` when none is.
pub fn first_coprime(candidates: &Vec<u64>, phi: u64) -> (r: Option<u64>)
    ensures
        match r {
            Some(e) => exists|i: int| is_first_coprime(candidates@, phi, i) && candidates@[i] == e,
            None => forall|i: int|
                0 <= i < candidates@.len() ==> gcd(#[trigger] candidates@[i] as nat, phi as nat)
                    != 1,
        },
{
    let mut i: usize = 0;
    while i < candidates.len()
        invariant
            i <= candidates@.len(),
            forall|j: int| 0 <= j < i ==> gcd(#[trigger] candidates@[j] as nat, phi as nat) != 1,
        decreases candidates@.len() - i,
    {
        if are_relatively_prime(candidates[i], phi) {
            assert(is_first_coprime(candidates@, phi, i as int));
            return Some(candidates[i]);
        }
        i = i + 1;
    }
    None
}

/// Picks a public exponent for the totient `phi`: `PREFERRED_EXPONENT` when it
/// is below `phi` and coprime to it, else the first of `MAX_ATTEMPTS` uniform
/// draws in `(1, phi)` that is coprime to `phi`. When every value in
/// `(1, phi)` is coprime to `phi` (a prime `phi`, say), the first draw serves.
pub fn choose_public_exponent(phi: u64) -> (r: Option<u64>)
    ensures
        r matches Some(e) ==> 1 < e < phi && gcd(e as nat, phi as nat) == 1,
        phi > PREFERRED_EXPONENT && gcd(PREFERRED_EXPONENT as nat, phi as nat) == 1 ==> r
            == Some(PREFERRED_EXPONENT),
        phi <= 2 ==> r == None::<u64>,
        phi >= 3 && (forall|k: nat| 2 <= k < phi ==> #[trigger] gcd(k, phi as nat) == 1) ==> r is Some,
{
    if phi > PREFERRED_EXPONENT && are_relatively_prime(PREFERRED_EXPONENT, phi) {
        return Some(PREFERRED_EXPONENT);
    }
    if phi <= 2 {
        return None;
    }
    let mut candidates: Vec<u64> = Vec::new();
    let mut attempt: u32 = 0;
    while attempt < MAX_ATTEMPTS
        invariant
            phi > 2,
            attempt <= MAX_ATTEMPTS,
            candidates@.len() == attempt,
            forall|j: int| 0 <= j < candidates@.len() ==> 2 <= #[trigger] candidates@[j] < phi,
        decreases MAX_ATTEMPTS - attempt,
    {
        let candidate: u64 = random_between(2, phi - 1);
        candidates.push(candidate);
        attempt = attempt + 1;
    }
    let r = first_coprime(&candidates, phi);
    proof {
        if r is Some {
            let i = choose|i: int| is_first_coprime(candidates@, phi, i) && candidates@[i] == r->0;
            assert(2 <= candidates@[i] < phi);
        }
        if forall|k: nat| 2 <= k < phi ==> #[trigger] gcd(k, phi as nat) == 1 {
            let c: nat = candidates@[0] as nat;
            assert(gcd(c, phi as nat) == 1);
        }
    }
    r
}

/// Generates a key pair `((n, e), (n, d))` on two distinct probable primes
/// drawn in `[2, max]`, with `e` from `choose_public_exponent` (so 65537
/// where it fits) and `d` the smallest inverse of `e` modulo the totient.
/// `None` when `max < 2`, when a random search runs out of attempts, or when
/// the modulus or totient overflows 64 bits.
pub fn generate_rsa_keys(max: u64) -> (r: Option<((u64, u64), (u64, u64))>)
    ensures
        max < 2 ==> r == None::<((u64, u64), (u64, u64))>,
        r matches Some(((n, e), (n2, d))) ==> n2 == n && exists|p: int, q: int|
            #![trigger is_key_pair(p, q, n as int, e as int, d as int)]
            {
                &&& are_drawn_factors(max as int, p, q)
                &&& is_key_pair(p, q, n as int, e as int, d as int)
                &&& forall|k: int| 1 <= k < d ==> !is_inverse_mod(e as int, k, totient(p, q))
                &&& totient(p, q) > PREFERRED_EXPONENT && gcd(
                    PREFERRED_EXPONENT as nat,
                    totient(p, q) as nat,
                ) == 1 ==> e == PREFERRED_EXPONENT
            },
{
    let p: u64 = match generate_random_prime(max) {
        Some(v) => v,
        None => return None,
    };
    let mut q: u64 = match generate_random_prime(max) {
        Some(v) => v,
        None => return None,
    };
    let mut retries: u32 = 0;
    while q == p
        invariant
            2 <= q <= max,
            is_fermat_probable_prime(q as int),
            retries <= MAX_ATTEMPTS,
        decreases MAX_ATTEMPTS - retries,
    {
        if retries == MAX_ATTEMPTS {
            return None;
        }
        q = match generate_random_prime(max) {
            Some(v) => v,
            None => return None,
        };
        retries = retries + 1;
    }
    let phi: u64 = match (p - 1).checked_mul(q - 1) {
        Some(v) => v,
        None => return None,
    };
    let e: u64 = match choose_public_exponent(phi) {
        Some(v) => v,
        None => return None,
    };
    let r = key_pair_from(p, q, e);
    proof {
        if let Some(((n, e2), (n2, d))) = r {
            assert(are_drawn_factors(max as int, p as int, q as int));
            assert(is_key_pair(p as int, q as int, n as int, e2 as int, d as int));
        }
    }
    r
}

/// Signs `message` with the private key `(n, d)`: `message` to the power `d`
/// modulo `n`.
pub fn sign_message(message: u64, private_key: (u64, u64)) -> (r: u64)
    requires
        private_key.0 >= 1,
    ensures
        r == mod_pow(message as int, private_key.1 as nat, private_key.0 as int),
{
    let (n, d) = private_key;
    fast_expo(message, d, n)
}

/// Recovers the message from `signature` with the public key `(n, e)`:
/// `signature` to the power `e` modulo `n`.
pub fn decode_message(signature: u64, public_key: (u64, u64)) -> (r: u64)
    requires
        public_key.0 >= 1,
    ensures
        r == mod_pow(signature as int, public_key.1 as nat, public_key.0 as int),
{
    let (n, e) = public_key;
    fast_expo(signature, e, n)
}

/// Whether `signature` decodes under `(n, e)` to `message` modulo `n`.
pub fn verify_signature(message: u64, signature: u64, public_key: (u64, u64)) -> (r: bool)
    requires
        public_key.0 >= 1,
    ensures
        r == (mod_pow(signature as int, public_key.1 as nat, public_key.0 as int) == message
            % public_key.0),
{
    decode_message(signature, public_key) == message % public_key.0
}

/// Decoding a signature gives the message back: for a key pair on two
/// distinct primes and any message below the modulus, decoding what
/// `sign_message` returns yields the message itself (zero included).
pub proof fn lemma_sign_then_decode(p: nat, q: nat, n: nat, e: nat, d: nat, m: nat)
    requires
        is_prime(p),
        is_prime(q),
        p != q,
        is_key_pair(p as int, q as int, n as int, e as int, d as int),
        m < n,
    ensures
        mod_pow(mod_pow(m as int, d, n as int), e, n as int) == m,
{
    let pi = p as int;
    let qi = q as int;
    let ni = n as int;
    let phi = totient(pi, qi);
    lemma_mul_strictly_positive(pi, qi);
    let ed: int = (e * d) as int;
    lemma_fundamental_div_mod(ed, phi);
    lemma_div_pos_is_pos(ed, phi);
    let k: nat = (ed / phi) as nat;
    let pm1: nat = (p - 1) as nat;
    let qm1: nat = (q - 1) as nat;
    let a: nat = k * qm1;
    let b: nat = k * pm1;
    assert(phi == pm1 * qm1);
    assert(d * e == 1 + pm1 * a && d * e == 1 + qm1 * b) by (nonlinear_arith)
        requires
            ed == e * d,
            ed == phi * k + 1,
            phi == pm1 * qm1,
            a == k * qm1,
            b == k * pm1,
    ;
    let z = pow(m as int, d * e);
    lemma_pow_one_plus_multiple(m, p, a);
    lemma_pow_one_plus_multiple(m, q, b);
    lemma_mod_equivalence(z, m as int, pi);
    lemma_mod_equivalence(z, m as int, qi);
    lemma_divisible_by_product(z - m, p, q);
    lemma_mod_equivalence(z, m as int, ni);
    lemma_small_mod(m, n);
    lemma_pow_mod_noop(pow(m as int, d), e, ni);
    lemma_pow_multiplies(m as int, d, e);
}

} // verus!

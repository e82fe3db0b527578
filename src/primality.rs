//! The fixed-witness Fermat test and random sampling of probable primes.

use crate::arith::{fast_expo, mod_pow};
use crate::number_theory::{is_prime, lemma_fermat_coprime};
use vstd::arithmetic::div_mod::lemma_small_mod;
use rand::Rng;
use vstd::prelude::*;

verus! {

/// How many candidates a random search draws before it gives up.
pub const MAX_ATTEMPTS: u32 = 1000;

/// Witness `w` does not expose `p` as composite: either `w` is too large to
/// test `p`, or `w` to the power `p - 1` is 1 modulo `p`.
pub open spec fn passes_witness(w: int, p: int) -> bool {
    w >= p || mod_pow(w, (p - 1) as nat, p) == 1
}

/// `p` is at least 2 and passes the Fermat test for the witnesses 2, 3, 5 and 7.
pub open spec fn is_fermat_probable_prime(p: int) -> bool {
    &&& p >= 2
    &&& passes_witness(2, p)
    &&& passes_witness(3, p)
    &&& passes_witness(5, p)
    &&& passes_witness(7, p)
}

/// Every prime passes the test: it can only err by accepting a composite.
pub proof fn lemma_prime_is_probable_prime(p: nat)
    requires
        is_prime(p),
    ensures
        is_fermat_probable_prime(p as int),
{
    lemma_witness_passes_prime(2, p);
    lemma_witness_passes_prime(3, p);
    lemma_witness_passes_prime(5, p);
    lemma_witness_passes_prime(7, p);
}

proof fn lemma_witness_passes_prime(w: nat, p: nat)
    requires
        is_prime(p),
        w >= 1,
    ensures
        passes_witness(w as int, p as int),
{
    if w < p {
        lemma_small_mod(w, p);
        lemma_fermat_coprime(w, p);
    }
}

/// Whether witness `w` leaves `p` possibly prime.
fn witness_passes(w: u64, p: u64) -> (r: bool)
    requires
        p >= 2,
    ensures
        r == passes_witness(w as int, p as int),
{
    w >= p || fast_expo(w, p - 1, p) == 1
}

/// Fermat test of `p` against the witnesses 2, 3, 5 and 7; stops at the
/// first witness that shows `p` composite.
pub fn is_probably_prime(p: u64) -> (r: bool)
    ensures
        r == is_fermat_probable_prime(p as int),
        is_prime(p as nat) ==> r,
{
    proof {
        if is_prime(p as nat) {
            lemma_prime_is_probable_prime(p as nat);
        }
    }
    if p < 2 {
        return false;
    }
    let witnesses: [u64; 4] = [2, 3, 5, 7];
    let mut i: usize = 0;
    while i < 4
        invariant
            p >= 2,
            i <= 4,
            witnesses@ == seq![2u64, 3u64, 5u64, 7u64],
            is_prime(p as nat) ==> is_fermat_probable_prime(p as int),
            forall|j: int| 0 <= j < i ==> passes_witness(witnesses@[j] as int, p as int),
        decreases 4 - i,
    {
        if !witness_passes(witnesses[i], p) {
            return false;
        }
        i = i + 1;
    }
    assert(passes_witness(witnesses@[0] as int, p as int));
    assert(passes_witness(witnesses@[1] as int, p as int));
    assert(passes_witness(witnesses@[2] as int, p as int));
    assert(passes_witness(witnesses@[3] as int, p as int));
    true
}

/// Relies on `rand::thread_rng` and `Rng::gen_range` over `lo..=hi`: a value
/// in `[lo, hi]`; `gen_range` panics only on an empty range.
#[verifier::external_body]
pub(crate) fn random_between(lo: u64, hi: u64) -> (r: u64)
    requires
        lo <= hi,
    ensures
        lo <= r <= hi,
{
    rand::thread_rng().gen_range(lo..=hi)
}

/// The candidate at index `i` passes the test and none before it does.
pub open spec fn is_first_passing(candidates: Seq<u64>, i: int) -> bool {
    &&& 0 <= i < candidates.len()
    &&& is_fermat_probable_prime(candidates[i] as int)
    &&& forall|j: int| 0 <= j < i ==> !is_fermat_probable_prime(#[trigger] candidates[j] as int)
}

/// The first of `candidates` that passes `is_probably_prime`; `None` when
/// none does.
pub fn first_probable_prime(candidates: &Vec<u64>) -> (r: Option<u64>)
    ensures
        match r {
            Some(p) => exists|i: int| is_first_passing(candidates@, i) && candidates@[i] == p,
            None => forall|i: int|
                0 <= i < candidates@.len() ==> !is_fermat_probable_prime(#[trigger] candidates@[i] as int),
        },
{
    let mut i: usize = 0;
    while i < candidates.len()
        invariant
            i <= candidates@.len(),
            forall|j: int| 0 <= j < i ==> !is_fermat_probable_prime(#[trigger] candidates@[j] as int),
        decreases candidates@.len() - i,
    {
        if is_probably_prime(candidates[i]) {
            assert(is_first_passing(candidates@, i as int));
            return Some(candidates[i]);
        }
        i = i + 1;
    }
    None
}

/// 2 and 3 pass the test.
proof fn lemma_two_and_three_pass()
    ensures
        is_fermat_probable_prime(2),
        is_fermat_probable_prime(3),
{
    reveal_with_fuel(vstd::arithmetic::power::pow, 3);
    assert(mod_pow(2, 2, 3) == 1);
}

/// Draws `MAX_ATTEMPTS` uniform candidates in `[2, n]` and returns the first
/// that passes `is_probably_prime`; `None` when `n < 2` or when no draw
/// passed. Every value in `[2, 3]` passes, so for `n` of 2 or 3 a prime is
/// always found.
pub fn generate_random_prime(n: u64) -> (r: Option<u64>)
    ensures
        n < 2 ==> r == None::<u64>,
        2 <= n <= 3 ==> r is Some,
        r matches Some(p) ==> 2 <= p <= n && is_fermat_probable_prime(p as int),
{
    if n < 2 {
        return None;
    }
    let mut candidates: Vec<u64> = Vec::new();
    let mut attempt: u32 = 0;
    while attempt < MAX_ATTEMPTS
        invariant
            n >= 2,
            attempt <= MAX_ATTEMPTS,
            candidates@.len() == attempt,
            forall|j: int| 0 <= j < candidates@.len() ==> 2 <= #[trigger] candidates@[j] <= n,
        decreases MAX_ATTEMPTS - attempt,
    {
        let candidate: u64 = random_between(2, n);
        candidates.push(candidate);
        attempt = attempt + 1;
    }
    let r = first_probable_prime(&candidates);
    proof {
        lemma_two_and_three_pass();
        if n <= 3 {
            assert(2 <= candidates@[0] <= 3);
            assert(is_fermat_probable_prime(candidates@[0] as int));
        }
    }
    r
}

} // verus!

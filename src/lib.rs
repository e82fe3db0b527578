//! A small RSA-style toolkit over 64-bit integers: modular exponentiation,
//! greatest common divisors, a fixed-witness Fermat primality test, random
//! prime sampling, key-pair derivation and raw signing.

pub mod arith;
pub mod number_theory;
pub mod primality;
pub mod rsa;

pub use arith::{are_relatively_prime, fast_expo, mod_inverse, pgcd};
pub use primality::{generate_random_prime, is_probably_prime};
pub use rsa::{decode_message, generate_rsa_keys, sign_message, verify_signature};

//! Deterministic primality testing over arbitrary-precision natural numbers.
//!
//! The test is a pipeline of six stages run in order against one candidate;
//! the first stage that reaches a verdict ends the run:
//!
//! 1. reject perfect powers;
//! 2. find the order witness `r`, the least modulus modulo which the
//!    candidate has a large multiplicative order;
//! 3. reject candidates that share a proper factor with a number below `r`;
//! 4. accept candidates that are at most `r`;
//! 5. reject candidates that do not divide one of their binomial
//!    coefficients;
//! 6. accept what is left.
//!
//! [`primality_check`] holds the stages and their contracts, and
//! [`correctness`] the proof that the verdict is `true` exactly for the
//! primes. Big-number arithmetic comes from the `malachite` crate behind the
//! trusted wrappers of [`natural`] and [`decimal`]; everything else is
//! verified.

pub mod binomial;
pub mod correctness;
pub mod decimal;
pub mod input;
pub mod natural;
pub mod number_theory;
pub mod primality_check;

//! Minimisation of boolean functions: the Quine-McCluskey search for prime
//! implicants and Petrick's method for a smallest cover.
//!
//! A function is given by its minterms, the numbers on which it must be 1,
//! and its don't-care terms, the numbers on which it may be anything.
//! [`qmc::find_prime_implicants`] finds the prime implicants of the two
//! together, and [`petrick::find_essential_prime_implicants`] chooses a
//! smallest set of them that covers the minterms.

pub mod adaptors;
pub mod bits;
pub mod convert;
pub mod count;
pub mod pattern;
pub mod petrick;
pub mod prime;
pub mod qmc;
mod sets;
pub mod term;
pub mod utils;

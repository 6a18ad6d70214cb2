//! Exact rational arithmetic with a small verified expression evaluator.
//!
//! The crate provides a fraction type kept in lowest terms by a
//! trial-division greatest-common-divisor routine backed by a cache of
//! primes, together with a two-tier infix evaluator over `+ - * /`:
//! division and multiplication bind first, addition and subtraction
//! after, each tier resolved left to right.

pub mod arith;
pub mod eval;
pub mod primes;
pub mod rational;

pub use rational::Error;
pub use rational::Rational;

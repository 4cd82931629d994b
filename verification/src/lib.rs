//! Primes, primorials and the state of an interactive primorial calculator.
pub mod number;
pub mod primes;
pub mod primorial;
pub mod text;
pub mod storage;
pub mod calculator;

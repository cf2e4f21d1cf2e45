/// Modular exponentiation and primality as a specification.
pub mod arith;
/// The sieve of Eratosthenes and the pool of small primes.
pub mod sieve;
/// The random source and the one draw the library makes from it.
pub mod random;
/// The Miller-Rabin compositeness filter.
pub mod miller_rabin;
/// Records, errors and iteration ceilings shared by the generators.
pub mod batch;
/// Witness sets of distinct random bases.
pub mod witness;
/// The Pocklington generator.
pub mod pocklington;
/// The Miller generator.
pub mod miller;
/// The GOST-style constructive generator.
pub mod gost;
/// Greatest common divisor and an exact rational series sum.
pub mod series;

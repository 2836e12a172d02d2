//! Number theory.
pub mod euler_sieve;

pub use self::euler_sieve::{euler_sieve, EulerPhi, MulFunc};

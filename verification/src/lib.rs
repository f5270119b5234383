//! Generation and validation of domain parameters for discrete-log-based
//! cryptosystems: safe primes with generators, extension-field parameters
//! (irreducible modulus plus multiplicative generator), and elliptic-curve
//! parameters over extension fields.

pub mod conversion;
pub mod elliptic_curves;
pub mod polynomials;
pub mod primes;

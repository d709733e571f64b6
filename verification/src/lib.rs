//! Ideal class group arithmetic in imaginary quadratic number fields.
//!
//! Binary quadratic forms `a x^2 + b x y + c y^2` of a fixed discriminant
//! `D = b^2 - 4ac`, negative for the class group, are composed, squared,
//! cubed, raised to powers, inverted and reduced.

pub mod digits;
pub mod form;
pub mod mpz;
pub mod radix;
pub mod algo;
pub mod primes;
pub mod mpz_group;
pub mod s64;
pub mod s128;
pub mod generic;
pub mod sanity;
pub mod laws;

pub use algo::MpzForm;
pub use generic::{GenBackend, GenCoefficients, GenForm, GenGroup};
pub use mpz::Mpz;
pub use mpz_group::MpzGroup;
pub use radix::ParseMpzError;
pub use s128::{S128Form, S128Group};
pub use s64::{S64Form, S64Group};
pub use sanity::{SanityForm, SanityGroup};

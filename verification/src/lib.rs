//! Exact Gaussian-integer arithmetic and finite experiments with the coprimality
//! topology on the nonzero Gaussian integers.
//!
//! The specification of every operation is stated over the mathematical model in
//! [`ring`]: a Gaussian integer is a pair of mathematical integers.
pub mod arithmetic;
pub mod classification;
pub mod command;
pub mod division;
pub mod divisors;
pub mod factor;
pub mod gcd;
pub mod primality;
pub mod report;
pub mod ring;
pub mod text;
pub mod topology;
pub mod two_squares;
pub mod uniqueness;
pub mod window;

pub use arithmetic::{GaussianError, GaussianInt};
pub use command::{parse_command, Command};
pub use factor::{
    factor, is_gaussian_prime, prime_support, Factorization, PrimeClass, PrimePower,
    MAX_FACTOR_NORM,
};
pub use report::{help, run, run_command};
pub use text::{format_factorization, format_support, parse_i64};
pub use topology::{
    coprime, in_closure_of, sigma_contains, sigma_intersection_contains, specializes_to,
    topologically_indistinguishable, KolmogorovPoint, QuotientBasicOpen,
};
pub use window::{window_census, WindowCensus, WindowClass, MAX_WINDOW_RADIUS};

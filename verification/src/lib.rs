//! Checked computation kernels, sequential and parallel, and layered
//! configuration for the `rusty-cli` tool.
//!
//! Every kernel states its result exactly over the mathematical definitions in
//! [`arithmetic`]; the parallel kernels are proved to agree with the
//! sequential ones, and the closed form of the sum of squares is proved to
//! agree with the loop.

pub mod arithmetic;
pub mod chunks;
pub mod compute;
pub mod config;
pub mod error;

pub use compute::{count_primes, count_primes_parallel, is_prime, sum_of_squares, sum_of_squares_parallel, thread_count};

pub use config::Config;
pub use error::{ComputeError, ConfigError};

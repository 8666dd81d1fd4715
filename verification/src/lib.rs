//! Transposition of flattened, row-major two-dimensional arrays, and
//! division by a fixed divisor through multiplication and shifting.

mod arithmetic;
pub mod out_of_place;
pub mod power_of_two;
pub mod strength_reduction;

pub use out_of_place::transpose;

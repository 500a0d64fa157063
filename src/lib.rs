//! Multiplicative persistence of arbitrary-precision natural numbers, the
//! digit-product engines behind it, and range searches for new records.

pub mod digits;
pub mod product;
pub mod persistence;
pub mod search;

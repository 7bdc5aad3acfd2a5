//! Decimal numbers stored as sequences of decimal digits.
pub mod digit_ops;
pub mod digits;
pub mod digits_type;
pub mod error;
pub mod laws;
pub mod order;
pub mod radix_converters;
pub mod small_ints;
pub mod traits;
pub mod unsigned;
pub mod util;

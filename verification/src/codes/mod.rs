//! The linear codes of the library.
pub mod basefold;
pub mod brakedown;
pub mod era;
pub mod expand_accumulate;
pub mod identity;
pub mod optimized_era;
pub mod tensor;

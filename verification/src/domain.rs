pub mod entities;
pub mod float_bits;
pub mod hashing;
pub mod ordering;
pub mod plane;
pub mod unit_interval;
pub mod use_cases;

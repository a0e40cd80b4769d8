pub mod bigint;
pub mod big_fraction;
pub mod big_vector;
pub mod rat;

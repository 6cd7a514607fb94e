//! A PLONK-style proving core: the constraint system and its copy-constraint
//! permutation, the permutation accumulator, the quotient and linearization
//! arithmetic, and non-native field limbs, over the scalar field of the
//! Ristretto group.
pub mod challenges;
pub mod cs;
pub mod cycles;
pub mod errors;
pub mod field;
pub mod linearization;
pub mod permutation;
pub mod poly;
pub mod quotient;
pub mod simfr;

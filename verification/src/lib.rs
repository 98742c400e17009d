pub mod limbs;
pub mod bigint_field;
pub mod engine;
pub mod field_math;
pub mod poly;
pub mod sumcheck_model;
pub mod bigint_sumcheck;
pub mod completeness;
pub mod ark_field;
pub mod arithmetic;
pub mod sc_prover;
pub mod sc_verifier;
pub mod protocol;
pub mod streaming;
pub mod small_value;
pub mod naive;
pub mod grid_values;
pub mod window_values;
pub mod extrapolation;
pub mod soundness;

//! A symbolic solver that turns polynomial and lookup constraints over a
//! finite field into an ordered sequence of runtime effects that compute
//! unknown execution-trace cells from known ones.

pub mod affine_symbolic_expression;
pub mod cell;
pub mod expression;
pub mod field;
pub mod range_constraint;
pub mod symbolic_expression;
pub mod witgen_inference;

//! The constraint-emission core of a zero-knowledge virtual machine: an
//! instruction evaluator that executes bytecode register-by-register while
//! building a rank-1 constraint system describing that execution, together
//! with the boundary record format its outputs feed into and the capability
//! interfaces the surrounding proving system provides.
pub mod algorithms;
pub mod cs;
pub mod errors;
pub mod evaluator;
pub mod operations;
pub mod sponge;
pub mod transaction;
pub mod value;

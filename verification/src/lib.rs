//! Type inference for closed lambda terms with guarded recursive types.
//!
//! The pipeline reads a term in arrow notation, resolves its variables,
//! infers a (possibly cyclic) type for every subterm by unification, splits
//! the resulting type graph into basic and arrow types, marks the arrow edges
//! that close a cycle, states the linear problem that places the guards, and
//! prints the resulting type with its definitions.
use vstd::prelude::*;

pub mod guard;
pub mod print;
pub mod solve;
pub mod text;
pub mod types;

verus! {

} // verus!

//! Reduces a typed program to one function that a circuit can be made of.
//!
//! The reduced function is in single-assignment form, holds no loop and no
//! call of a function of the program: every call is inlined, every loop is
//! unrolled. Calls of primitives stay.
//!
//! The reduction works in passes. The entry function is first put in
//! shallow single-assignment form ([`shallow_ssa`]), which leaves loops and
//! calls where they are. Each pass ([`reducer`]) then inlines the calls
//! ([`inline`]) and unrolls the loops with literal bounds that it finds.
//! Between two passes the caller's propagation runs on the function
//! ([`driver`]); it may turn the bounds of further loops into literals and
//! make the types of further calls concrete. Versions are issued from one
//! map throughout ([`versions`]); the versions that loops reserve are mapped
//! back by a substitution that is applied after each pass
//! ([`substitution`], [`apply`]).
//!
//! Every function states what it returns over the mathematical model of its
//! arguments. What holds of every reduction is proved in [`laws`].

use vstd::prelude::*;

pub mod absy;
pub mod apply;
pub mod driver;
pub mod embed;
pub mod error;
pub mod identifier;
pub mod inline;
pub mod laws;
pub mod model;
pub mod program;
pub mod rename;
pub mod reducer;
pub mod render;
pub mod resolve;
pub mod shallow_ssa;
pub mod substitution;
pub mod table;
pub mod types;
pub mod unify;
pub mod versions;

pub use crate::error::Error;
pub use crate::program::reduce_program;

verus! {

/// The result of a step that may leave work behind: finished, or a result
/// together with what the next step needs.
#[derive(Debug, PartialEq)]
pub enum Output<U, V> {
    Complete(U),
    Incomplete(U, V),
}

} // verus!

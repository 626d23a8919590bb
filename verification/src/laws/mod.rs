//! What holds of every reduction, proved from the definitions.

pub mod balance;
pub mod loops;
pub mod paths;
pub mod reduced;
pub mod repeat;
pub mod single_assignment;
pub mod unrolling;

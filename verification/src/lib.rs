//! Minimization of boolean functions given as truth tables.
//!
//! A boolean function of up to 16 variables is described by the set of its
//! minterms: the truth-table rows on which it is 1. The library reduces that
//! set to a sum-of-products form, a set of implicants, by iterated pairwise
//! combination of terms that differ in a single position.

pub mod logical_expression;
pub mod minimizer;
pub mod minterm;
pub mod ternary;

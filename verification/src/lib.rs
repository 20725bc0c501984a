//! A verified engine for Gaussian belief fusion.
//!
//! The crate keeps a set of Gaussian probability density functions, some of
//! which are declared as the precision-weighted fusion product of others, and
//! keeps the derived ones consistent as their inputs change.  All parameters
//! are exact rational numbers, so the fusion algebra, the dependency-graph
//! recomputation, the deterministic sampling grids and the snapshot codec are
//! exact and carry machine-checked contracts.  Turning a sample into a
//! floating-point density value (an exponential and a square root of pi) is
//! left to the unverified display layer, which receives every irrational
//! quantity in symbolic form.

pub mod codec;
pub mod dist;
pub mod graph;
pub mod rat;
pub mod sampler;

//! A neural heuristic for unification: which premise a goal is likely to unify with.
//!
//! A transformer reads a problem as a list of tokens, each a pair of paths in the problem's
//! syntax tree, and scores every goal against every premise. This crate is what surrounds the
//! network: how paths become steps, tensors and products of matrices ([`encoding`], [`tables`],
//! [`steps`], [`input`]), what the network is run on and what becomes of its scores ([`model`]), which
//! problem's weights a search sees ([`schedule`]), where the network's parameters come from
//! ([`weights`], [`record`]), and what the programs that time and run it decide ([`search`],
//! [`cli`], [`status`]).
//!
//! Floats pass through as bit patterns or as values of a type parameter. Where a path is
//! embedded, their arithmetic is a function that the caller hands in.

pub mod cli;
pub mod encoding;
pub mod input;
pub mod ir;
pub mod model;
pub mod record;
pub mod rows;
pub mod schedule;
pub mod search;
pub mod status;
pub mod steps;
pub mod tables;
pub mod tensor;
pub mod text;
pub mod weights;

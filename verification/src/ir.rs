//! Positions in a problem's syntax tree, and the problem as a list of tokens.

use vstd::prelude::*;

verus! {

/// One step from a node of the syntax tree to a child.
#[derive(Clone, Copy, Debug, PartialEq, Eq, Hash, Structural)]
pub enum Position {
    Type,
    Rule(usize),
    LHS,
    RHS,
    Param(usize),
    Let(usize),
    Arg(usize),
}

/// An occurrence of a symbol: where it stands, and where the symbol is declared.
#[derive(Clone, Debug)]
pub struct Token {
    pub position: Vec<Position>,
    pub declaration: Vec<Position>,
}

/// A problem as the network reads it: its tokens, and where its goals and its premises
/// are declared.
#[derive(Clone, Debug)]
pub struct Tokenization {
    pub tokens: Vec<Token>,
    pub goals: Vec<Vec<Position>>,
    pub premises: Vec<Vec<Position>>,
}

} // verus!

//! A parser generator: grammar analysis (FIRST/FOLLOW sets), canonical
//! LR(0) and LR(1) item-set construction, parsing tables for the LR(0), SLR
//! and LR(1) algorithms with conflict detection, a shift/reduce driver that
//! turns a token stream into a concrete syntax tree, a regex-backed lexical
//! analyzer, and a recursive-descent LL back-end.

use vstd::prelude::*;

pub mod driver;
pub mod first_sets;
pub mod follow_sets;
pub mod grammar;
pub mod item;
pub mod lexer;
pub mod ll;
pub mod lr0;
pub mod lr1;
pub mod parser;
pub mod slr;
pub mod symset;
pub mod table;

verus! {

/// A grammar symbol, identified by a small integer id.
///
/// Terminals and non-terminals share one id space `0 .. n_symbols`;
/// the grammar records which ids are terminals.
pub type Sym = usize;

} // verus!

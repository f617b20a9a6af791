//! A small toolkit for turning a character stream into a typed syntax tree:
//! a scanner with lookahead, consumption, position snapshots and rollback;
//! backtracking combinators built on that surface; and a binding-power
//! climbing expression parser driven by a configurable operator table.

pub mod parser;
pub mod scanner;

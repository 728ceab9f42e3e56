//! A validator and query engine for a small textual language of nested,
//! named lists.
//!
//! The library takes an already-split sequence of input lines, validates it
//! against the grammar
//! `PROGRAM ::= DATA* '.' QUERY* 'QUIT'`, builds a forest of trees, and
//! answers structural queries (aggregate sum, duplicate-name detection,
//! dangling-pointer detection, value search with path reporting).

pub mod chars;
pub mod lexer;
pub mod node;
pub mod parser;
pub mod queries;
pub mod runner;
pub mod serial;
pub mod strutil;
pub mod validate;

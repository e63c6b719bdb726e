//! Front end for a small textual DSL of ontology-style class declarations:
//! a backtracking lexer, an interning symbol table, and a recursive-descent
//! parser that enforces property-kind consistency across a whole file.

pub mod chars;
pub mod lexer;
pub mod parser;
pub mod span;
pub mod table;

//! Front end for a small Lisp-family language: a character-level tokenizer
//! with source-position tracking, a lexeme classifier, and a parse-tree
//! builder that assembles the token stream into an index-addressed graph
//! of nodes and parent/child edges.

pub mod errors;
pub mod lexer;
pub mod parser;

//! A small interpreter for an eight-command tape language: a lexer that
//! picks commands out of raw bytes, a compiler that pairs loop brackets, and
//! a machine that runs the result on a fixed-size tape of byte cells.
pub mod lexer;
pub mod machine;
pub mod op;
pub mod pairing;

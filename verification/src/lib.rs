//! A calculator that compiles: an arithmetic expression is read into a
//! tree and the tree is turned into x86-64 machine code that computes it in
//! double precision.
//!
//! [`lexer`] reads tokens from text and [`parser`] builds the tree; [`number`]
//! reads decimal literals into binary64 bit patterns, exactly, on whole
//! numbers of any size from [`bignat`]; [`codegen`] emits the code. [`syntax`]
//! and [`machine`] hold what is proved of the parser and of the code: that the
//! parser reads every sentence of the grammar as its tree, and that the code of
//! a tree leaves the tree's value in `xmm0`.
//!
//! Numbers are bit patterns throughout: the library does no floating-point
//! arithmetic of its own. Running the code is left to the caller.

pub mod ast;
pub mod bignat;
pub mod codegen;
pub mod lexer;
pub mod machine;
pub mod number;
pub mod parser;
pub mod syntax;
pub mod token;

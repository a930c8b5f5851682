//! A miniature ahead-of-time compiler for a small C-like language.
//!
//! Source text flows through six stages: the lexer in [`tokenizer`], the
//! recursive-descent parser in [`parser`], the scope tree in [`symbol_table`],
//! the reference checker in [`symantic_check`], the lowering pass in [`cfg`]
//! and the assembly emitter in [`codegen`]. [`compiler`] chains them; [`ast`]
//! holds the syntax tree they share and [`text`] a few string helpers.
//!
//! Every stage is specified by a mathematical model of its input and output
//! and verified against it. Two modules hold nothing but laws of these
//! models: [`precedence`] shows that the parser groups operators by how
//! tightly they bind, and [`scoping`] that a lookup in the symbol table finds
//! the nearest declaration.

pub mod ast;
pub mod cfg;
pub mod codegen;
pub mod compiler;
pub mod parser;
pub mod precedence;
pub mod scoping;
pub mod symantic_check;
pub mod symbol_table;
pub mod text;
pub mod tokenizer;

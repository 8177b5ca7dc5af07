//! A compiler for the eight-symbol tape language: a tokenizer, a run-length
//! folding parser, a reference interpreter and a code generator that emits a
//! WebAssembly module.
//!
//! - `tokenizer`: keeps the eight symbols of a text.
//! - `parser`: builds the instruction tree, folding runs into counts.
//! - `program`: instructions, declared functions and programs.
//! - `interpreter`: runs a tree on a byte tape.
//! - `wasm`: the module encoder's builders, as the code generator uses them.
//! - `compiler`: lowers trees to stack-machine code and assembles the module.
//! - `target`: a model of the stack machine, on which the generated code is
//!   proved to run as the interpreter does.

pub mod program;
pub mod tokenizer;
pub mod parser;
pub mod interpreter;
pub mod wasm;
pub mod compiler;
pub mod target;

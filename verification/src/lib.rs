//! A bytecode compiler and virtual machine for a small Lox dialect:
//! scanner, Pratt-style single-pass compiler, chunk encoding and the
//! instruction semantics of the stack machine.

pub mod chunk;
pub mod compiler;
pub mod text;
pub mod vm;

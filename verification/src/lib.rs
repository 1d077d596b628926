//! A compiler and stack virtual machine for a small slang-flavored
//! imperative language: source text is lexed and parsed into an abstract
//! syntax tree, lowered to a versioned binary bytecode artifact with a
//! constant pool, function table and code section, and executed by a
//! byte-dispatch machine over a value stack, seven global slots and a call
//! stack.
//!
//! Numbers of the language are IEEE 754 doubles. The library holds every
//! number as its raw 64-bit pattern and never performs double arithmetic,
//! parsing or rendering itself: those few operations are requested from the
//! caller (the driver) through explicit effects, so everything else — the
//! lexer, the parser, the code generator, the artifact codec and the whole
//! instruction dispatch — is verified.

pub mod compiler;
pub mod error;
pub mod lexer;
pub mod parser;
mod text;
pub mod value;
pub mod vm;
pub mod wire;

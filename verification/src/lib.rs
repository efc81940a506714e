//! A verified core of the Zinc compiler and virtual machine.
//!
//! The compiler side: the lexer and token stream, the parser of chains of
//! multiplicative operands, the expression tree builder, and the run-time
//! types that code generation derives from semantic types. The machine side:
//! its stacks, function frames, loops, calls and conditionals.

pub mod lexical;
pub mod error;
pub mod expression;
pub mod operand;
pub mod add_sub;
pub mod tree;
pub mod builder;
pub mod semantic;
pub mod bytecode;
pub mod generator;
pub mod vm_state;
pub mod vm;
pub mod vm_laws;
pub mod instructions;
pub mod directory;

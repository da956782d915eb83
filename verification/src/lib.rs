//! Whispem: a small dynamically typed scripting language.
//!
//! Source text is tokenized, parsed into a statement tree, compiled into
//! stack-machine bytecode and executed by a virtual machine.  Every function
//! in this crate carries a contract, and Verus proves each of them but
//! those of four small functions that call the standard library.

pub mod ast;
pub mod balance;
pub mod bignat;
pub mod builtins;
pub mod chunk;
pub mod compiler;
pub mod decimal;
pub mod dict;
pub mod disasm;
pub mod ends;
pub mod error;
pub mod even;
pub mod exact;
pub mod frames;
pub mod grammar;
pub mod layout;
pub mod level;
pub mod lexer;
pub mod lowering;
pub mod machine;
pub mod number;
pub mod opcode;
pub mod ops;
pub mod parser;
pub mod pipeline;
pub mod pool;
pub mod prompt;
pub mod rise;
pub mod runs;
pub mod scan;
pub mod shape;
pub mod sound;
pub mod steady;
pub mod steps;
pub mod text;
pub mod token;
pub mod value;
pub mod vm;

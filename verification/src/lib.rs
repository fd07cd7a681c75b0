//! A compiler from an eight-operator tape-machine language to x86-64 machine
//! code: a coalescing lexer and parser, a small x86-64 encoder, and a
//! single-pass code generator that back-patches its forward branches.
//!
//! Every function states what it computes over a mathematical model of its
//! data, and is proved to compute it without overflow or panic.

pub mod assembler;
pub mod interpreter;
pub mod jit;
pub mod layout;
pub mod lexer;
pub mod parser;
pub mod pipeline;

pub use assembler::{Operand, X86Assembler};
pub use interpreter::{Action, Intepreter};
pub use jit::{CompileError, JitCompiler};
pub use lexer::{Lexer, Location, Token};
pub use parser::{Instruction, ParseError, Parser, Program};
pub use pipeline::{compile_source, Error};

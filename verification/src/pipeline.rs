//! From source bytes to machine code: parsing followed by code generation,
//! and the proof that every program that parsing yields can be compiled.

use crate::assembler::X86Assembler;
use crate::jit::{
    closers_have_openers, code_fits, first_input, generate, lemma_generator_counts_open_loops, machine_code,
    open_loops, CompileError, JitCompiler, TAPE_SIZE,
};
use crate::layout::{lemma_open_loops_counts_indices, lemma_parsed_closers_target_innermost};
use crate::lexer::Lexer;
use crate::parser::{parse, ParseError, Parser};
use vstd::prelude::*;

verus! {

/// Why a source has no machine code.
#[derive(Debug, Clone, Copy, PartialEq, Eq, Structural)]
pub enum Error {
    /// The source is not a program.
    Parse(ParseError),
    /// The program cannot be translated.
    Compile(CompileError),
}

/// Every program that parsing yields can be compiled: each of its closing
/// brackets has a loop to close. And the generator ends with no loop open,
/// so that every forward branch of its machine code has been patched.
pub proof fn lemma_parsed_program_compiles(s: Seq<u8>)
    requires
        s.len() <= usize::MAX,
    ensures
        match parse(s) {
            Ok(p) => {
                &&& closers_have_openers(p)
                &&& open_loops(p, p.len() as int) == 0
                &&& generate(p, p.len() as int).open.len() == 0
            },
            Err(_) => true,
        },
{
    if let Ok(p) = parse(s) {
        lemma_parsed_closers_target_innermost(s);
        lemma_generator_counts_open_loops(p, p.len() as int);
        lemma_open_loops_counts_indices(p, p.len() as int);
        assert forall|n: int| 0 <= n < p.len() && (#[trigger] p[n]) is JmpBack implies open_loops(
            p,
            n,
        ) > 0 by {
            lemma_open_loops_counts_indices(p, n);
        }
    }
}

/// Whether `r` is what compiling the source `s` yields: the error of the
/// parser, the refusal of a program that reads input, or a compiler that
/// holds the program of `s`, its machine code, and a tape of zeroes.
pub open spec fn compiled_from(s: Seq<u8>, r: Result<JitCompiler, Error>) -> bool {
    match parse(s) {
        Err(e) => r == Err::<JitCompiler, Error>(Error::Parse(e)),
        Ok(p) => if first_input(p, 0) == p.len() {
            &&& r is Ok
            &&& r.unwrap().program@ == p
            &&& r.unwrap().assembler@ == machine_code(p)
            &&& code_fits(p)
            &&& r.unwrap().memory@ == Seq::new(TAPE_SIZE as nat, |i: int| 0u8)
            &&& r.unwrap().addr == 0
        } else {
            r == Err::<JitCompiler, Error>(Error::Compile(CompileError::UnsupportedOperation))
        },
    }
}

/// Determinism: two compilations of one source end alike. Either both fail,
/// with the same error, or both succeed, with the same program and the same
/// machine code, byte for byte.
pub proof fn lemma_compilation_is_deterministic(
    s: Seq<u8>,
    first: Result<JitCompiler, Error>,
    second: Result<JitCompiler, Error>,
)
    requires
        compiled_from(s, first),
        compiled_from(s, second),
    ensures
        match (first, second) {
            (Ok(a), Ok(b)) => a.program@ == b.program@ && a.assembler@ == b.assembler@,
            (Err(e), Err(f)) => e == f,
            _ => false,
        },
{
}

/// Parses `source` and translates its program into machine code.
pub fn compile_source(source: Vec<u8>) -> (r: Result<JitCompiler, Error>)
    ensures
        compiled_from(source@, r),
{
    let mut lexer = Lexer::new(source);
    proof {
        lexer.lemma_cursor_bounds();
    }
    let mut parser = Parser::default();
    let program = match parser.parse_program(&mut lexer) {
        Ok(program) => program,
        Err(e) => {
            return Err(Error::Parse(e));
        },
    };
    proof {
        lemma_parsed_program_compiles(source@);
    }
    let mut jit = JitCompiler::new(program, X86Assembler::default());
    match jit.compile() {
        Ok(()) => Ok(jit),
        Err(e) => Err(Error::Compile(e)),
    }
}

} // verus!

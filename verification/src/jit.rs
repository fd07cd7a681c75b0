//! The code generator: one pass over a program that emits the machine code
//! of each instruction and patches the forward branch of each loop once its
//! end is known.
//!
//! The generated code is a function of two arguments in the System V calling
//! convention: `RDI` holds the address of the tape, `RSI` the address of the
//! word that holds the tape cursor. `RAX` is scratch.

use crate::assembler::{
    add_encoding, compare_encoding, je_encoding, jne_encoding, mov_encoding, movzx_encoding,
    patched, pop_encoding, push_encoding, sub_encoding, Operand, X86Assembler,
};
use crate::parser::{Instruction, Program};
use vstd::prelude::*;

verus! {

/// The number of cells of the tape.
pub const TAPE_SIZE: usize = 640000;

/// The branch target that a forward branch holds until it is patched.
pub const PLACEHOLDER_TARGET: usize = 0x00c0_ffee;

/// Why a program has no machine code.
#[derive(Debug, Clone, Copy, PartialEq, Eq, Structural)]
pub enum CompileError {
    /// The program reads input, which the generated code cannot do.
    UnsupportedOperation,
}

/// What the generator remembers of a loop whose end it has not met yet.
#[derive(Debug, Clone, Copy, PartialEq, Eq, Structural)]
pub struct LoopSite {
    /// The code offset of the first byte of the loop's opening test.
    pub start: usize,
    /// The code offset just after the displacement of the opening test's
    /// forward branch.
    pub exit_patch: usize,
}

/// The code emitted so far and the loops that are still open, innermost
/// last.
pub struct Emitted {
    pub code: Seq<u8>,
    pub open: Seq<LoopSite>,
}

/// The low 32 bits of `n`: the immediate that stands for a count.
pub open spec fn low_bits(n: usize) -> u32 {
    ((n as int) % 0x1_0000_0000) as u32
}

/// `mov rax, [rsi]`: loads the tape cursor.
pub open spec fn load_cursor_code() -> Seq<u8> {
    mov_encoding(
        Operand::Register(X86Assembler::RAX),
        Operand::MemoryByRegister(X86Assembler::RSI),
    ).unwrap()
}

/// `mov [rsi], rax`: stores the tape cursor.
pub open spec fn store_cursor_code() -> Seq<u8> {
    mov_encoding(
        Operand::MemoryByRegister(X86Assembler::RSI),
        Operand::Register(X86Assembler::RAX),
    ).unwrap()
}

/// The code that advances the tape cursor by `n`.
pub open spec fn move_right_code(n: usize) -> Seq<u8> {
    load_cursor_code() + add_encoding(
        Operand::Register(X86Assembler::RAX),
        Operand::Immediate(low_bits(n)),
    ).unwrap() + store_cursor_code()
}

/// The code that retreats the tape cursor by `n`.
pub open spec fn move_left_code(n: usize) -> Seq<u8> {
    load_cursor_code() + sub_encoding(
        Operand::Register(X86Assembler::RAX),
        Operand::Immediate(low_bits(n)),
    ).unwrap() + store_cursor_code()
}

/// The code that adds `k` to the current cell.
pub open spec fn increment_code(k: u8) -> Seq<u8> {
    load_cursor_code() + add_encoding(
        Operand::MemoryByRegisterAndOffset(X86Assembler::RDI, X86Assembler::RAX),
        Operand::Immediate8(k),
    ).unwrap()
}

/// The code that subtracts `k` from the current cell.
pub open spec fn decrement_code(k: u8) -> Seq<u8> {
    load_cursor_code() + sub_encoding(
        Operand::MemoryByRegisterAndOffset(X86Assembler::RDI, X86Assembler::RAX),
        Operand::Immediate8(k),
    ).unwrap()
}

/// The code that writes the current cell to the standard output once: it
/// saves `RDI` and `RSI`, puts the cell's address in `RSI`, asks the kernel
/// to write one byte from there to file descriptor 1, and restores both.
pub open spec fn write_code() -> Seq<u8> {
    push_encoding(Operand::Register(X86Assembler::RDI)).unwrap() + push_encoding(
        Operand::Register(X86Assembler::RSI),
    ).unwrap() + load_cursor_code() + add_encoding(
        Operand::Register(X86Assembler::RAX),
        Operand::Register(X86Assembler::RDI),
    ).unwrap() + mov_encoding(
        Operand::Register(X86Assembler::RSI),
        Operand::Register(X86Assembler::RAX),
    ).unwrap() + mov_encoding(
        Operand::Register(X86Assembler::RAX),
        Operand::Immediate(1),
    ).unwrap() + mov_encoding(
        Operand::Register(X86Assembler::RDI),
        Operand::Immediate(1),
    ).unwrap() + mov_encoding(
        Operand::Register(X86Assembler::RDX),
        Operand::Immediate(1),
    ).unwrap() + seq![0x0Fu8, 0x05u8] + pop_encoding(
        Operand::Register(X86Assembler::RSI),
    ).unwrap() + pop_encoding(Operand::Register(X86Assembler::RDI)).unwrap()
}

/// `block` repeated `n` times.
pub open spec fn repeated(block: Seq<u8>, n: nat) -> Seq<u8>
    decreases n,
{
    if n == 0 {
        Seq::empty()
    } else {
        repeated(block, (n - 1) as nat) + block
    }
}

/// The code that loads the current cell into `RAX` and compares it with
/// zero.
pub open spec fn test_cell_code() -> Seq<u8> {
    load_cursor_code() + movzx_encoding(
        Operand::Register(X86Assembler::RAX),
        Operand::MemoryByRegisterAndOffset(X86Assembler::RDI, X86Assembler::RAX),
    ).unwrap() + compare_encoding(
        Operand::Register(X86Assembler::RAX),
        Operand::Immediate8(0),
    ).unwrap()
}

/// What the generator holds after it has translated `instruction` in the
/// state `before`.
///
/// An opening bracket tests the cell and leaves the loop by a forward branch
/// whose target is not known yet. A closing bracket tests the cell, branches
/// back to the opening test of the innermost open loop, and makes that
/// loop's forward branch lead just past itself.
pub open spec fn translate(before: Emitted, instruction: Instruction) -> Emitted {
    match instruction {
        Instruction::AddrRight(n) => Emitted { code: before.code + move_right_code(n), ..before },
        Instruction::AddrLeft(n) => Emitted { code: before.code + move_left_code(n), ..before },
        Instruction::Inc(k) => Emitted { code: before.code + increment_code(k), ..before },
        Instruction::Dec(k) => Emitted { code: before.code + decrement_code(k), ..before },
        Instruction::Output(n) => Emitted {
            code: before.code + repeated(write_code(), n as nat),
            ..before
        },
        Instruction::Input(_) => before,
        Instruction::JmpForward(_) => {
            let tested = before.code + test_cell_code();
            let code = tested + je_encoding(tested.len() as int, PLACEHOLDER_TARGET as int);
            Emitted {
                code,
                open: before.open.push(
                    LoopSite { start: before.code.len() as usize, exit_patch: code.len() as usize },
                ),
            }
        },
        Instruction::JmpBack(_) => {
            if before.open.len() == 0 {
                before
            } else {
                let site = before.open.last();
                let tested = before.code + test_cell_code();
                let code = tested + jne_encoding(tested.len() as int, site.start as int);
                Emitted {
                    code: patched(code, site.exit_patch as int, code.len() as int),
                    open: before.open.drop_last(),
                }
            }
        },
    }
}

/// What the generator holds after the first `n` instructions of `p`.
pub open spec fn generate(p: Seq<Instruction>, n: int) -> Emitted
    decreases n,
{
    if n <= 0 || n > p.len() {
        Emitted { code: Seq::empty(), open: Seq::empty() }
    } else {
        translate(generate(p, n - 1), p[n - 1])
    }
}

/// The machine code of the program `p`: the code of its instructions and a
/// final `ret`.
pub open spec fn machine_code(p: Seq<Instruction>) -> Seq<u8> {
    generate(p, p.len() as int).code + seq![0xC3u8]
}

/// The number of loops that are open after the first `n` instructions of
/// `p`. A closing bracket with no loop open closes nothing.
pub open spec fn open_loops(p: Seq<Instruction>, n: int) -> nat
    decreases n,
{
    if n <= 0 || n > p.len() {
        0
    } else {
        match p[n - 1] {
            Instruction::JmpForward(_) => open_loops(p, n - 1) + 1,
            Instruction::JmpBack(_) => if open_loops(p, n - 1) > 0 {
                (open_loops(p, n - 1) - 1) as nat
            } else {
                0
            },
            _ => open_loops(p, n - 1),
        }
    }
}

/// Every closing bracket of `p` has a loop to close.
pub open spec fn closers_have_openers(p: Seq<Instruction>) -> bool {
    forall|n: int|
        0 <= n < p.len() && (#[trigger] p[n]) is JmpBack ==> open_loops(p, n) > 0
}

/// The index of the first instruction of `p` at or after index `i` that
/// reads input, or the length of `p` where there is none.
pub open spec fn first_input(p: Seq<Instruction>, i: int) -> int
    decreases p.len() - i,
{
    if i < 0 || i >= p.len() {
        p.len() as int
    } else if p[i] is Input {
        i
    } else {
        first_input(p, i + 1)
    }
}

/// The patch site of every open loop lies in the code, behind a
/// displacement of four bytes.
pub open spec fn sites_in_code(e: Emitted) -> bool {
    forall|j: int| 0 <= j < e.open.len() ==> 4 <= (#[trigger] e.open[j]).exit_patch <= e.code.len()
}

/// The code of every prefix of `p` can be held in memory: its length is a
/// machine word.
pub open spec fn code_fits(p: Seq<Instruction>) -> bool {
    forall|n: int| 0 <= n <= p.len() ==> (#[trigger] generate(p, n)).code.len() <= usize::MAX
}

/// After `n` instructions the generator holds one site for each open loop.
pub proof fn lemma_generator_counts_open_loops(p: Seq<Instruction>, n: int)
    ensures
        generate(p, n).open.len() == open_loops(p, n),
    decreases n,
{
    if 0 < n <= p.len() {
        lemma_generator_counts_open_loops(p, n - 1);
    }
}

/// The low 32 bits of `n`.
pub fn low_bits_of(n: usize) -> (r: u32)
    ensures
        r == low_bits(n),
{
    ((n as u64) % 0x1_0000_0000) as u32
}

/// A program with its tape and the assembler that holds its machine code.
pub struct JitCompiler {
    pub assembler: X86Assembler,
    pub program: Program,
    pub memory: Vec<u8>,
    pub addr: usize,
}

impl JitCompiler {
    /// A compiler for `program` with a tape of zeroes and the cursor on its
    /// first cell.
    pub fn new(program: Program, assembler: X86Assembler) -> (jit: Self)
        ensures
            jit.program == program,
            jit.assembler == assembler,
            jit.memory@ == Seq::new(TAPE_SIZE as nat, |i: int| 0u8),
            jit.addr == 0,
    {
        let memory = vec![0u8; TAPE_SIZE];
        assert(memory@ =~= Seq::new(TAPE_SIZE as nat, |i: int| 0u8));
        JitCompiler { assembler, program, memory, addr: 0 }
    }

    /// Whether every closing bracket of `program` has a loop to close: what
    /// `compile` asks of a program.
    pub fn closers_have_openers(program: &Program) -> (ok: bool)
        ensures
            ok == closers_have_openers(program@),
    {
        let mut depth: usize = 0;
        let mut i: usize = 0;
        while i < program.len()
            invariant
                i <= program.len(),
                depth == open_loops(program@, i as int),
                depth <= i,
                forall|n: int|
                    0 <= n < i && (#[trigger] program@[n]) is JmpBack ==> open_loops(program@, n)
                        > 0,
            decreases program.len() - i,
        {
            match program[i] {
                Instruction::JmpForward(_) => {
                    depth += 1;
                },
                Instruction::JmpBack(_) => {
                    if depth == 0 {
                        return false;
                    }
                    depth -= 1;
                },
                _ => {},
            }
            i += 1;
        }
        true
    }

    /// Translates the program into machine code, which replaces what the
    /// assembler held. A program that reads input is refused; the assembler
    /// then holds the code of the instructions before the first read.
    pub fn compile(&mut self) -> (r: Result<(), CompileError>)
        requires
            closers_have_openers(old(self).program@),
        ensures
            final(self).program == old(self).program,
            final(self).memory == old(self).memory,
            final(self).addr == old(self).addr,
            ({
                let p = old(self).program@;
                let k = first_input(p, 0);
                if k == p.len() {
                    &&& r is Ok
                    &&& final(self).assembler@ == machine_code(p)
                    &&& code_fits(p)
                } else {
                    &&& r == Err::<(), CompileError>(CompileError::UnsupportedOperation)
                    &&& final(self).assembler@ == generate(p, k).code
                }
            }),
    {
        let mut forward_jumps: Vec<LoopSite> = Vec::new();
        let ghost p = self.program@;

        self.assembler.clear();
        let mut i: usize = 0;
        while i < self.program.len()
            invariant
                self.program == old(self).program,
                self.memory == old(self).memory,
                self.addr == old(self).addr,
                p == self.program@,
                closers_have_openers(p),
                i <= p.len(),
                self.assembler@ == generate(p, i as int).code,
                forward_jumps@ == generate(p, i as int).open,
                forward_jumps@.len() == open_loops(p, i as int),
                sites_in_code(generate(p, i as int)),
                first_input(p, i as int) == first_input(p, 0),
                forall|n: int| 0 <= n <= i ==> (#[trigger] generate(p, n)).code.len() <= usize::MAX,
            decreases p.len() - i,
        {
            let instruction = self.program[i];
            let ghost before = generate(p, i as int);
            assert(generate(p, i + 1) == translate(before, instruction));
            match instruction {
                Instruction::AddrRight(value) => {
                    self.assembler.emit_mov(
                        Operand::Register(X86Assembler::RAX),
                        Operand::MemoryByRegister(X86Assembler::RSI),
                    );
                    self.assembler.emit_add(
                        Operand::Register(X86Assembler::RAX),
                        Operand::Immediate(low_bits_of(value)),
                    );
                    self.assembler.emit_mov(
                        Operand::MemoryByRegister(X86Assembler::RSI),
                        Operand::Register(X86Assembler::RAX),
                    );
                    assert(self.assembler@ =~= before.code + move_right_code(value));
                },
                Instruction::AddrLeft(value) => {
                    self.assembler.emit_mov(
                        Operand::Register(X86Assembler::RAX),
                        Operand::MemoryByRegister(X86Assembler::RSI),
                    );
                    self.assembler.emit_sub(
                        Operand::Register(X86Assembler::RAX),
                        Operand::Immediate(low_bits_of(value)),
                    );
                    self.assembler.emit_mov(
                        Operand::MemoryByRegister(X86Assembler::RSI),
                        Operand::Register(X86Assembler::RAX),
                    );
                    assert(self.assembler@ =~= before.code + move_left_code(value));
                },
                Instruction::Inc(value) => {
                    self.assembler.emit_mov(
                        Operand::Register(X86Assembler::RAX),
                        Operand::MemoryByRegister(X86Assembler::RSI),
                    );
                    self.assembler.emit_add(
                        Operand::MemoryByRegisterAndOffset(X86Assembler::RDI, X86Assembler::RAX),
                        Operand::Immediate8(value),
                    );
                    assert(self.assembler@ =~= before.code + increment_code(value));
                },
                Instruction::Dec(value) => {
                    self.assembler.emit_mov(
                        Operand::Register(X86Assembler::RAX),
                        Operand::MemoryByRegister(X86Assembler::RSI),
                    );
                    self.assembler.emit_sub(
                        Operand::MemoryByRegisterAndOffset(X86Assembler::RDI, X86Assembler::RAX),
                        Operand::Immediate8(value),
                    );
                    assert(self.assembler@ =~= before.code + decrement_code(value));
                },
                Instruction::Output(value) => {
                    let mut written: usize = 0;
                    assert(self.assembler@ =~= before.code + repeated(write_code(), 0));
                    while written < value
                        invariant
                            self.program == old(self).program,
                            self.memory == old(self).memory,
                            self.addr == old(self).addr,
                            written <= value,
                            self.assembler@ == before.code + repeated(
                                write_code(),
                                written as nat,
                            ),
                        decreases value - written,
                    {
                        self.emit_write();
                        written += 1;
                        assert(self.assembler@ =~= before.code + repeated(
                            write_code(),
                            written as nat,
                        ));
                    }
                },
                Instruction::Input(_) => {
                    return Err(CompileError::UnsupportedOperation);
                },
                Instruction::JmpForward(_) => {
                    let start = self.assembler.position();
                    self.emit_test_cell();
                    // The target is patched in once the end of the loop is known.
                    self.assembler.emit_jump_if_zero(PLACEHOLDER_TARGET);
                    forward_jumps.push(LoopSite { start, exit_patch: self.assembler.position() });
                },
                Instruction::JmpBack(_) => {
                    self.emit_test_cell();
                    match forward_jumps.pop() {
                        Some(site) => {
                            self.assembler.emit_jump_if_non_zero(site.start);

                            // Lead the loop's forward branch past this one.
                            let patch_target = self.assembler.position();
                            self.assembler.patch_jump_target(site.exit_patch, patch_target);
                        },
                        None => {},
                    }
                },
            }
            i += 1;
            proof {
                self.assembler.lemma_length_fits();
            }
        }
        self.assembler.emit_return();
        Ok(())
    }

    /// Appends the code that tests the current cell.
    fn emit_test_cell(&mut self)
        ensures
            final(self).assembler@ == old(self).assembler@ + test_cell_code(),
            final(self).program == old(self).program,
            final(self).memory == old(self).memory,
            final(self).addr == old(self).addr,
    {
        self.assembler.emit_mov(
            Operand::Register(X86Assembler::RAX),
            Operand::MemoryByRegister(X86Assembler::RSI),
        );
        self.assembler.emit_movzx(
            Operand::Register(X86Assembler::RAX),
            Operand::MemoryByRegisterAndOffset(X86Assembler::RDI, X86Assembler::RAX),
        );
        self.assembler.emit_compare(
            Operand::Register(X86Assembler::RAX),
            Operand::Immediate8(0),
        );
        assert(self.assembler@ =~= old(self).assembler@ + test_cell_code());
    }

    /// Appends the code that writes the current cell once.
    fn emit_write(&mut self)
        ensures
            final(self).assembler@ == old(self).assembler@ + write_code(),
            final(self).program == old(self).program,
            final(self).memory == old(self).memory,
            final(self).addr == old(self).addr,
    {
        self.assembler.emit_push(Operand::Register(X86Assembler::RDI));
        self.assembler.emit_push(Operand::Register(X86Assembler::RSI));

        // Load the cursor into RAX
        self.assembler.emit_mov(
            Operand::Register(X86Assembler::RAX),
            Operand::MemoryByRegister(X86Assembler::RSI),
        );

        // Add RDI to RAX to get the address of the cell
        self.assembler.emit_add(
            Operand::Register(X86Assembler::RAX),
            Operand::Register(X86Assembler::RDI),
        );

        // Put the address of the cell into RSI
        self.assembler.emit_mov(
            Operand::Register(X86Assembler::RSI),
            Operand::Register(X86Assembler::RAX),
        );

        // Load the number of the write system call into RAX
        self.assembler.emit_mov(Operand::Register(X86Assembler::RAX), Operand::Immediate(1));
        // Load the file descriptor of the standard output into RDI
        self.assembler.emit_mov(Operand::Register(X86Assembler::RDI), Operand::Immediate(1));
        // Load the length into RDX
        self.assembler.emit_mov(Operand::Register(X86Assembler::RDX), Operand::Immediate(1));
        self.assembler.emit_syscall();

        self.assembler.emit_pop(Operand::Register(X86Assembler::RSI));
        self.assembler.emit_pop(Operand::Register(X86Assembler::RDI));
        assert(self.assembler@ =~= old(self).assembler@ + write_code());
    }
}

} // verus!

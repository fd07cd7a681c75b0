//! A tree-walking interpreter for programs, one instruction at a time. What
//! an instruction writes is handed to the caller, who owns the output.

use crate::jit::TAPE_SIZE;
use crate::parser::{brackets_matched, Instruction, Program};
use vstd::prelude::*;

verus! {

/// What the caller is to do after a step.
#[derive(Debug, Clone, Copy, PartialEq, Eq, Structural)]
pub enum Action {
    /// Nothing: the step changed the machine only.
    Continue,
    /// Write `byte` to the output `count` times.
    Write { byte: u8, count: usize },
    /// Nothing: the program has ended.
    Halt,
}

/// The tape, the cursor on it, and the index of the next instruction.
pub struct Machine {
    pub memory: Seq<u8>,
    pub addr: int,
    pub instruction_ptr: int,
}

/// Whether `instruction` can run on `m`: the cursor stays a machine word,
/// the cell that is read or written lies on the tape, and nothing is read
/// from the input.
pub open spec fn can_execute(m: Machine, instruction: Instruction) -> bool {
    match instruction {
        Instruction::AddrRight(n) => m.addr + n <= usize::MAX,
        Instruction::AddrLeft(n) => n <= m.addr,
        Instruction::Input(_) => false,
        _ => 0 <= m.addr < m.memory.len(),
    }
}

/// The machine after `instruction` has run on `m`, and what is to be
/// written.
pub open spec fn execute(m: Machine, instruction: Instruction) -> (Machine, Action) {
    let next = m.instruction_ptr + 1;
    match instruction {
        Instruction::AddrRight(n) => (
            Machine { addr: m.addr + n, instruction_ptr: next, ..m },
            Action::Continue,
        ),
        Instruction::AddrLeft(n) => (
            Machine { addr: m.addr - n, instruction_ptr: next, ..m },
            Action::Continue,
        ),
        Instruction::Inc(k) => (
            Machine {
                memory: m.memory.update(m.addr, ((m.memory[m.addr] + k) % 256) as u8),
                instruction_ptr: next,
                ..m
            },
            Action::Continue,
        ),
        Instruction::Dec(k) => (
            Machine {
                memory: m.memory.update(m.addr, ((m.memory[m.addr] - k) % 256) as u8),
                instruction_ptr: next,
                ..m
            },
            Action::Continue,
        ),
        Instruction::Output(n) => (
            Machine { instruction_ptr: next, ..m },
            Action::Write { byte: m.memory[m.addr], count: n },
        ),
        Instruction::Input(_) => (m, Action::Halt),
        Instruction::JmpForward(target) => (
            Machine {
                instruction_ptr: if m.memory[m.addr] == 0 {
                    target as int
                } else {
                    next
                },
                ..m
            },
            Action::Continue,
        ),
        Instruction::JmpBack(target) => (
            Machine {
                instruction_ptr: if m.memory[m.addr] != 0 {
                    target as int
                } else {
                    next
                },
                ..m
            },
            Action::Continue,
        ),
    }
}

/// In a program whose brackets are matched, a step from one of its
/// instructions leads to another of its instructions or to its end.
pub proof fn lemma_step_stays_in_program(p: Seq<Instruction>, m: Machine)
    requires
        brackets_matched(p),
        0 <= m.instruction_ptr < p.len(),
    ensures
        0 <= execute(m, p[m.instruction_ptr]).0.instruction_ptr <= p.len(),
{
}

/// A program, its tape, the cursor and the index of the next instruction.
pub struct Intepreter {
    pub program: Program,
    pub memory: Vec<u8>,
    pub addr: usize,
    pub instruction_ptr: usize,
}

impl Intepreter {
    /// The tape, the cursor and the index of the next instruction.
    pub open spec fn machine(&self) -> Machine {
        Machine {
            memory: self.memory@,
            addr: self.addr as int,
            instruction_ptr: self.instruction_ptr as int,
        }
    }

    /// Whether the program has ended.
    pub open spec fn halted(&self) -> bool {
        self.instruction_ptr >= self.program@.len()
    }

    /// Whether a step can be taken: the program has ended, or its next
    /// instruction can run.
    pub open spec fn can_step(&self) -> bool {
        self.halted() || can_execute(self.machine(), self.program@[self.instruction_ptr as int])
    }

    /// An interpreter at the start of `program`, with a tape of zeroes and
    /// the cursor on its first cell.
    pub fn new(program: Program) -> (interpreter: Self)
        ensures
            interpreter.program == program,
            interpreter.memory@ == Seq::new(TAPE_SIZE as nat, |i: int| 0u8),
            interpreter.addr == 0,
            interpreter.instruction_ptr == 0,
    {
        let memory = vec![0u8; TAPE_SIZE];
        assert(memory@ =~= Seq::new(TAPE_SIZE as nat, |i: int| 0u8));
        Intepreter { program, memory, addr: 0, instruction_ptr: 0 }
    }

    /// Whether a step can be taken.
    pub fn is_ready(&self) -> (ready: bool)
        ensures
            ready == self.can_step(),
    {
        if self.instruction_ptr >= self.program.len() {
            return true;
        }
        match self.program[self.instruction_ptr] {
            Instruction::AddrRight(count) => count <= usize::MAX - self.addr,
            Instruction::AddrLeft(count) => count <= self.addr,
            Instruction::Input(_) => false,
            _ => self.addr < self.memory.len(),
        }
    }

    /// Runs the next instruction, or does nothing where the program has
    /// ended.
    pub fn step(&mut self) -> (action: Action)
        requires
            old(self).can_step(),
        ensures
            final(self).program == old(self).program,
            old(self).halted() ==> {
                &&& action == Action::Halt
                &&& final(self).machine() == old(self).machine()
            },
            !old(self).halted() ==> (final(self).machine(), action) == execute(
                old(self).machine(),
                old(self).program@[old(self).instruction_ptr as int],
            ),
    {
        if self.instruction_ptr >= self.program.len() {
            return Action::Halt;
        }
        let instruction = self.program[self.instruction_ptr];
        let next = self.instruction_ptr + 1;
        match instruction {
            Instruction::AddrRight(count) => {
                self.addr += count;
                self.instruction_ptr = next;
                Action::Continue
            },
            Instruction::AddrLeft(count) => {
                self.addr -= count;
                self.instruction_ptr = next;
                Action::Continue
            },
            Instruction::Inc(count) => {
                let cell = self.memory[self.addr];
                self.memory.set(self.addr, ((cell as u16 + count as u16) % 256) as u8);
                self.instruction_ptr = next;
                Action::Continue
            },
            Instruction::Dec(count) => {
                let cell = self.memory[self.addr];
                self.memory.set(self.addr, ((cell as u16 + 256 - count as u16) % 256) as u8);
                self.instruction_ptr = next;
                Action::Continue
            },
            Instruction::Output(count) => {
                self.instruction_ptr = next;
                Action::Write { byte: self.memory[self.addr], count }
            },
            Instruction::Input(_) => Action::Halt,
            Instruction::JmpForward(target) => {
                if self.memory[self.addr] == 0 {
                    self.instruction_ptr = target;
                } else {
                    self.instruction_ptr = next;
                }
                Action::Continue
            },
            Instruction::JmpBack(target) => {
                if self.memory[self.addr] != 0 {
                    self.instruction_ptr = target;
                } else {
                    self.instruction_ptr = next;
                }
                Action::Continue
            },
        }
    }
}

} // verus!

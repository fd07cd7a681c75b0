//! A small x86-64 encoder: it appends the machine bytes of the instructions
//! asked for to a buffer, and patches 32-bit branch displacements in place.

use vstd::arithmetic::div_mod::{lemma_add_mod_noop, lemma_mod_add_multiples_vanish, lemma_sub_mod_noop};
use vstd::prelude::*;

verus! {

/// An operand of an instruction. Registers are given by their raw x86 number.
pub enum Operand {
    /// A 64-bit register.
    Register(u8),
    /// A 32-bit immediate.
    Immediate(u32),
    /// An 8-bit immediate.
    Immediate8(u8),
    /// The memory at the address held in a register.
    MemoryByRegister(u8),
    /// The memory at the sum of two registers: a base and an offset.
    MemoryByRegisterAndOffset(u8, u8),
}

/// The four bytes of `v`, least significant first. `v` is taken modulo 2^32.
pub open spec fn le32(v: int) -> Seq<u8> {
    seq![
        (v % 256) as u8,
        ((v / 256) % 256) as u8,
        ((v / 65536) % 256) as u8,
        ((v / 16777216) % 256) as u8,
    ]
}

/// The displacement from the code offset `from` to the code offset `target`
/// as an unsigned 32-bit number: the two's complement of the difference.
pub open spec fn rel32(target: int, from: int) -> int {
    (target - from) % 0x1_0000_0000
}

/// A byte made of a three-bit field `reg`, shifted left by three, and a
/// three-bit field `rm`: the lower six bits of a ModRM or SIB byte.
pub open spec fn reg_rm(reg: u8, rm: u8) -> u8 {
    (reg << 3u8) | rm
}

/// The bytes of `movzx dst, byte [src]`, where that form is supported.
pub open spec fn movzx_encoding(dst: Operand, src: Operand) -> Option<Seq<u8>> {
    match (dst, src) {
        (Operand::Register(d), Operand::MemoryByRegisterAndOffset(b, o)) => Some(
            seq![0x0Fu8, 0xB6u8, 0x04u8, reg_rm(d, b) | o],
        ),
        _ => None,
    }
}

/// The bytes of `mov dst, src`, where that form is supported.
pub open spec fn mov_encoding(dst: Operand, src: Operand) -> Option<Seq<u8>> {
    match (dst, src) {
        (Operand::Register(d), Operand::MemoryByRegister(s)) => Some(
            seq![0x48u8, 0x8Bu8, reg_rm(d, s)],
        ),
        (Operand::Register(d), Operand::Immediate(v)) => Some(
            seq![0x48u8, 0xC7u8, 0xC0u8 | d] + le32(v as int),
        ),
        (Operand::MemoryByRegister(d), Operand::Register(s)) => Some(
            seq![0x48u8, 0x89u8, reg_rm(s, d)],
        ),
        (Operand::Register(d), Operand::MemoryByRegisterAndOffset(b, o)) => Some(
            seq![0x48u8, 0x8Bu8, 0x04u8 | (d << 3u8), reg_rm(o, b)],
        ),
        (Operand::Register(d), Operand::Register(s)) => Some(
            seq![0x48u8, 0x89u8, 0xC0u8 | reg_rm(s, d)],
        ),
        _ => None,
    }
}

/// The bytes of `add dst, src`, where that form is supported.
pub open spec fn add_encoding(dst: Operand, src: Operand) -> Option<Seq<u8>> {
    match (dst, src) {
        (Operand::Register(d), Operand::Immediate8(v)) => Some(seq![0x48u8, 0x83u8, 0xC0u8 | d, v]),
        (Operand::Register(d), Operand::Immediate(v)) => Some(
            seq![0x48u8, 0x81u8, 0xC0u8 | d] + le32(v as int),
        ),
        (Operand::MemoryByRegisterAndOffset(b, o), Operand::Immediate8(v)) => Some(
            seq![0x80u8, 0x04u8, reg_rm(b, o), v],
        ),
        (Operand::Register(d), Operand::Register(s)) => Some(
            seq![0x48u8, 0x01u8, 0xC0u8 | reg_rm(s, d)],
        ),
        _ => None,
    }
}

/// The bytes of `sub dst, src`, where that form is supported.
pub open spec fn sub_encoding(dst: Operand, src: Operand) -> Option<Seq<u8>> {
    match (dst, src) {
        (Operand::Register(d), Operand::Immediate8(v)) => Some(seq![0x48u8, 0x83u8, 0xE8u8 | d, v]),
        (Operand::Register(d), Operand::Immediate(v)) => Some(
            seq![0x48u8, 0x81u8, 0xE8u8 | d] + le32(v as int),
        ),
        (Operand::MemoryByRegisterAndOffset(b, o), Operand::Immediate8(v)) => Some(
            seq![0x80u8, 0x2Cu8, reg_rm(b, o), v],
        ),
        _ => None,
    }
}

/// The byte of `push src`, where `src` is a register.
pub open spec fn push_encoding(src: Operand) -> Option<Seq<u8>> {
    match src {
        Operand::Register(s) => Some(seq![0x50u8 | s]),
        _ => None,
    }
}

/// The byte of `pop dst`, where `dst` is a register.
pub open spec fn pop_encoding(dst: Operand) -> Option<Seq<u8>> {
    match dst {
        Operand::Register(d) => Some(seq![0x58u8 | d]),
        _ => None,
    }
}

/// The bytes of `cmp dst, src`, where that form is supported.
pub open spec fn compare_encoding(dst: Operand, src: Operand) -> Option<Seq<u8>> {
    match (dst, src) {
        (Operand::Register(d), Operand::Immediate8(v)) => Some(seq![0x48u8, 0x83u8, 0xF8u8 | d, v]),
        _ => None,
    }
}

/// The six bytes of a `je rel32` that stands at offset `at` and branches to
/// `target`. The displacement counts from the end of the instruction.
pub open spec fn je_encoding(at: int, target: int) -> Seq<u8> {
    seq![0x0Fu8, 0x84u8] + le32(rel32(target, at + 6))
}

/// The six bytes of a `jne rel32` that stands at offset `at` and branches to
/// `target`. The displacement counts from the end of the instruction.
pub open spec fn jne_encoding(at: int, target: int) -> Seq<u8> {
    seq![0x0Fu8, 0x85u8] + le32(rel32(target, at + 6))
}

/// `code` with the four bytes before offset `site` replaced by the
/// displacement from `site` to `target`.
pub open spec fn patched(code: Seq<u8>, site: int, target: int) -> Seq<u8> {
    code.subrange(0, site - 4) + le32(rel32(target, site)) + code.subrange(site, code.len() as int)
}

/// The number that four bytes stand for, least significant first.
pub open spec fn le32_value(bytes: Seq<u8>) -> int {
    bytes[0] + 256 * bytes[1] + 65536 * bytes[2] + 16777216 * bytes[3]
}

/// `le32` is the little-endian notation: read back, its four bytes give `v`
/// modulo 2^32.
pub proof fn lemma_le32_value(v: int)
    ensures
        le32(v).len() == 4,
        le32_value(le32(v)) == v % 0x1_0000_0000,
{
    let b0 = v % 256;
    let b1 = (v / 256) % 256;
    let b2 = (v / 65536) % 256;
    let b3 = (v / 16777216) % 256;
    assert(le32(v)[0] == b0 as u8 && le32(v)[1] == b1 as u8 && le32(v)[2] == b2 as u8 && le32(v)[3]
        == b3 as u8);
    assert(b0 + 256 * b1 + 65536 * b2 + 16777216 * b3 == v % 0x1_0000_0000) by {
        let q1 = v / 256;
        let q2 = v / 65536;
        let q3 = v / 16777216;
        let q4 = v / 0x1_0000_0000;
        assert(q2 == q1 / 256 && q3 == q2 / 256 && q4 == q3 / 256) by (nonlinear_arith)
            requires
                q1 == v / 256,
                q2 == v / 65536,
                q3 == v / 16777216,
                q4 == v / 0x1_0000_0000,
        ;
    }
}

/// `rel32` is the two's complement of the distance: a branch forward by
/// less than 2^32 bytes holds the distance itself, a branch back by at most
/// 2^32 bytes holds the distance counted down from 2^32.
pub proof fn lemma_rel32_is_twos_complement(target: int, from: int)
    ensures
        0 <= target - from < 0x1_0000_0000 ==> rel32(target, from) == target - from,
        -0x1_0000_0000 <= target - from < 0 ==> rel32(target, from) == 0x1_0000_0000 + (target
            - from),
{
}

/// For registers without an extension bit, `reg_rm` puts `reg` in bits 3 to
/// 5 and `rm` in bits 0 to 2.
pub proof fn lemma_reg_rm_fields(reg: u8, rm: u8)
    requires
        reg < 8,
        rm < 8,
    ensures
        reg_rm(reg, rm) == 8 * reg + rm,
{
    assert(((reg << 3u8) | rm) == 8 * reg + rm) by (bit_vector)
        requires
            reg < 8,
            rm < 8,
    ;
}

/// The four bytes of `v`, least significant first.
pub fn le_bytes(v: u32) -> (bytes: [u8; 4])
    ensures
        bytes@ == le32(v as int),
{
    let bytes = [
        (v % 256) as u8,
        ((v / 256) % 256) as u8,
        ((v / 65536) % 256) as u8,
        ((v / 16777216) % 256) as u8,
    ];
    assert(bytes@ =~= le32(v as int));
    bytes
}

/// The displacement from the offset `from + skip` to the offset `target`, as
/// the 32-bit two's complement of their difference.
pub fn displacement(target: usize, from: usize, skip: u8) -> (rel: u32)
    ensures
        rel as int == rel32(target as int, from + skip),
{
    let t: u64 = (target as u64) % 0x1_0000_0000;
    let f: u64 = ((from as u64) % 0x1_0000_0000 + skip as u64) % 0x1_0000_0000;
    let rel: u64 = (t + 0x1_0000_0000 - f) % 0x1_0000_0000;
    proof {
        let m = 0x1_0000_0000int;
        lemma_add_mod_noop(from as int, skip as int, m);
        lemma_mod_add_multiples_vanish(t - f, m);
        lemma_sub_mod_noop(target as int, from + skip, m);
    }
    rel as u32
}

/// An append-only buffer of machine code.
pub struct X86Assembler {
    code: Vec<u8>,
}

impl View for X86Assembler {
    type V = Seq<u8>;

    closed spec fn view(&self) -> Seq<u8> {
        self.code@
    }
}

impl Default for X86Assembler {
    fn default() -> (assembler: Self)
        ensures
            assembler@ == Seq::<u8>::empty(),
    {
        X86Assembler { code: Vec::new() }
    }
}

impl X86Assembler {
    pub const RAX: u8 = 0x00;

    pub const RDI: u8 = 0x07;

    pub const RSI: u8 = 0x06;

    pub const RDX: u8 = 0x02;

    /// The buffer is held in memory: its length is a machine word.
    pub proof fn lemma_length_fits(&self)
        ensures
            self@.len() <= usize::MAX,
    {
        assert(self.code@.len() == self.code.len());
    }

    /// Empties the buffer.
    pub fn clear(&mut self)
        ensures
            final(self)@ == Seq::<u8>::empty(),
    {
        self.code.clear();
    }

    /// The bytes emitted so far.
    pub fn code(&self) -> (code: &Vec<u8>)
        ensures
            code@ == self@,
    {
        &self.code
    }

    /// The offset at which the next byte will stand.
    pub fn position(&self) -> (pos: usize)
        ensures
            pos == self@.len(),
    {
        self.code.len()
    }

    /// Appends `bytes`.
    pub fn emit(&mut self, bytes: &[u8])
        ensures
            final(self)@ == old(self)@ + bytes@,
    {
        self.code.extend_from_slice(bytes);
    }

    /// Appends `movzx dst, byte [src]`.
    pub fn emit_movzx(&mut self, dst: Operand, src: Operand)
        requires
            movzx_encoding(dst, src) is Some,
        ensures
            final(self)@ == old(self)@ + movzx_encoding(dst, src).unwrap(),
    {
        match (dst, src) {
            (Operand::Register(dst_reg), Operand::MemoryByRegisterAndOffset(src_reg, offset_reg)) => {
                // movzx dst, byte [src_reg + offset_reg*1]
                self.emit(&[0x0F, 0xB6, 0x04, (dst_reg << 3) | src_reg | offset_reg]);
            },
            _ => {},
        }
    }

    /// Appends `mov dst, src`. An immediate is sign-extended to 64 bits by
    /// the processor.
    pub fn emit_mov(&mut self, dst: Operand, src: Operand)
        requires
            mov_encoding(dst, src) is Some,
        ensures
            final(self)@ == old(self)@ + mov_encoding(dst, src).unwrap(),
    {
        match (dst, src) {
            (Operand::Register(dst_reg), Operand::MemoryByRegister(src_reg)) => {
                // mov dst, [src]
                self.emit(&[0x48, 0x8B, (dst_reg << 3) | src_reg]);
            },
            (Operand::Register(dst), Operand::Immediate(src)) => {
                // mov dst, src
                self.emit(&[0x48, 0xC7, 0xC0 | dst]);
                self.emit(&le_bytes(src));
            },
            (Operand::MemoryByRegister(dst), Operand::Register(src)) => {
                // mov [dst], src
                self.emit(&[0x48, 0x89, (src << 3) | dst]);
            },
            (Operand::Register(dst_reg), Operand::MemoryByRegisterAndOffset(src_reg, offset_reg)) => {
                // mov dst, [src_reg + offset_reg*1]
                self.emit(&[0x48, 0x8B, 0x04 | (dst_reg << 3), (offset_reg << 3) | src_reg]);
            },
            (Operand::Register(dst), Operand::Register(src)) => {
                // mov dst, src
                self.emit(&[0x48, 0x89, 0xC0 | ((src << 3) | dst)]);
            },
            _ => {},
        }
    }

    /// Appends `add dst, src`.
    pub fn emit_add(&mut self, dst: Operand, src: Operand)
        requires
            add_encoding(dst, src) is Some,
        ensures
            final(self)@ == old(self)@ + add_encoding(dst, src).unwrap(),
    {
        match (dst, src) {
            (Operand::Register(dst), Operand::Immediate8(value)) => {
                // add dst, value
                self.emit(&[0x48, 0x83, 0xC0 | dst, value]);
            },
            (Operand::Register(dst), Operand::Immediate(value)) => {
                // add dst, value
                self.emit(&[0x48, 0x81, 0xC0 | dst]);
                self.emit(&le_bytes(value));
            },
            (Operand::MemoryByRegisterAndOffset(dst_reg, offset_reg), Operand::Immediate8(value)) => {
                // add byte [dst_reg + offset_reg*1], value
                self.emit(&[0x80, 0x04, (dst_reg << 3) | offset_reg, value]);
            },
            (Operand::Register(dst), Operand::Register(src)) => {
                // add dst, src
                self.emit(&[0x48, 0x01, 0xC0 | ((src << 3) | dst)]);
            },
            _ => {},
        }
    }

    /// Appends `sub dst, src`.
    pub fn emit_sub(&mut self, dst: Operand, src: Operand)
        requires
            sub_encoding(dst, src) is Some,
        ensures
            final(self)@ == old(self)@ + sub_encoding(dst, src).unwrap(),
    {
        match (dst, src) {
            (Operand::Register(dst), Operand::Immediate8(value)) => {
                // sub dst, value
                self.emit(&[0x48, 0x83, 0xE8 | dst, value]);
            },
            (Operand::Register(dst), Operand::Immediate(value)) => {
                // sub dst, value
                self.emit(&[0x48, 0x81, 0xE8 | dst]);
                self.emit(&le_bytes(value));
            },
            (Operand::MemoryByRegisterAndOffset(dst_reg, offset_reg), Operand::Immediate8(value)) => {
                // sub byte [dst_reg + offset_reg*1], value
                self.emit(&[0x80, 0x2C, (dst_reg << 3) | offset_reg, value]);
            },
            _ => {},
        }
    }

    /// Appends `push src`.
    pub fn emit_push(&mut self, src: Operand)
        requires
            push_encoding(src) is Some,
        ensures
            final(self)@ == old(self)@ + push_encoding(src).unwrap(),
    {
        match src {
            Operand::Register(src) => {
                // push src
                self.emit(&[0x50 | src]);
            },
            _ => {},
        }
    }

    /// Appends `pop dst`.
    pub fn emit_pop(&mut self, dst: Operand)
        requires
            pop_encoding(dst) is Some,
        ensures
            final(self)@ == old(self)@ + pop_encoding(dst).unwrap(),
    {
        match dst {
            Operand::Register(dst) => {
                // pop dst
                self.emit(&[0x58 | dst]);
            },
            _ => {},
        }
    }

    /// Appends `cmp dst, src`.
    pub fn emit_compare(&mut self, dst: Operand, src: Operand)
        requires
            compare_encoding(dst, src) is Some,
        ensures
            final(self)@ == old(self)@ + compare_encoding(dst, src).unwrap(),
    {
        match (dst, src) {
            (Operand::Register(dst), Operand::Immediate8(value)) => {
                // cmp dst, byte value
                self.emit(&[0x48, 0x83, 0xF8 | dst, value]);
            },
            _ => {},
        }
    }

    /// Appends a `je rel32` that branches to the code offset `target`.
    pub fn emit_jump_if_zero(&mut self, target: usize)
        ensures
            final(self)@ == old(self)@ + je_encoding(old(self)@.len() as int, target as int),
    {
        // The displacement counts from the end of the instruction, where the
        // instruction pointer stands once the instruction has been read.
        let relative_target = displacement(target, self.position(), 6);

        // je relative_target
        self.emit(&[0x0F, 0x84]);
        self.emit(&le_bytes(relative_target));
    }

    /// Appends a `jne rel32` that branches to the code offset `target`.
    pub fn emit_jump_if_non_zero(&mut self, target: usize)
        ensures
            final(self)@ == old(self)@ + jne_encoding(old(self)@.len() as int, target as int),
    {
        // The displacement counts from the end of the instruction, where the
        // instruction pointer stands once the instruction has been read.
        let relative_target = displacement(target, self.position(), 6);

        // jne relative_target
        self.emit(&[0x0F, 0x85]);
        self.emit(&le_bytes(relative_target));
    }

    /// Rewrites the displacement that ends at offset `patch_target_pos` so
    /// that its branch leads to the code offset `new_target`.
    pub fn patch_jump_target(&mut self, patch_target_pos: usize, new_target: usize)
        requires
            4 <= patch_target_pos <= old(self)@.len(),
        ensures
            final(self)@ == patched(old(self)@, patch_target_pos as int, new_target as int),
    {
        let bytes = le_bytes(displacement(new_target, patch_target_pos, 0));
        self.code.set(patch_target_pos - 4, bytes[0]);
        self.code.set(patch_target_pos - 3, bytes[1]);
        self.code.set(patch_target_pos - 2, bytes[2]);
        self.code.set(patch_target_pos - 1, bytes[3]);
        assert(self@ =~= patched(old(self)@, patch_target_pos as int, new_target as int));
    }

    /// Appends `syscall`.
    pub fn emit_syscall(&mut self)
        ensures
            final(self)@ == old(self)@ + seq![0x0Fu8, 0x05u8],
    {
        self.emit(&[0x0F, 0x05]);
    }

    /// Appends `ret`.
    pub fn emit_return(&mut self)
        ensures
            final(self)@ == old(self)@ + seq![0xC3u8],
    {
        self.emit(&[0xC3]);
    }
}

} // verus!

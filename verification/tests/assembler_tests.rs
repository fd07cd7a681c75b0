use bf_jit::assembler::{displacement, le_bytes, Operand, X86Assembler};

const RAX: u8 = X86Assembler::RAX;
const RDX: u8 = X86Assembler::RDX;
const RSI: u8 = X86Assembler::RSI;
const RDI: u8 = X86Assembler::RDI;

fn emitted(emit: fn(&mut X86Assembler)) -> Vec<u8> {
    let mut assembler = X86Assembler::default();
    emit(&mut assembler);
    assembler.code().clone()
}

#[test]
fn register_numbers_are_the_raw_encodings() {
    assert_eq!((RAX, RDX, RSI, RDI), (0, 2, 6, 7));
}

#[test]
fn new_assembler_is_empty() {
    let assembler = X86Assembler::default();
    assert_eq!(assembler.position(), 0);
    assert!(assembler.code().is_empty());
}

#[test]
fn emit_appends_and_position_follows() {
    let mut assembler = X86Assembler::default();
    assembler.emit(&[1, 2, 3]);
    assert_eq!(assembler.position(), 3);
    assembler.emit(&[]);
    assembler.emit(&[4]);
    assert_eq!(assembler.code(), &vec![1, 2, 3, 4]);
    assert_eq!(assembler.position(), 4);
    assembler.clear();
    assert_eq!(assembler.position(), 0);
    assert!(assembler.code().is_empty());
}

#[test]
fn le_bytes_puts_the_least_significant_byte_first() {
    assert_eq!(le_bytes(0), [0, 0, 0, 0]);
    assert_eq!(le_bytes(1), [1, 0, 0, 0]);
    assert_eq!(le_bytes(0x1234_5678), [0x78, 0x56, 0x34, 0x12]);
    assert_eq!(le_bytes(u32::MAX), [0xFF, 0xFF, 0xFF, 0xFF]);
    assert_eq!(le_bytes(0xDEAD_BEEF), 0xDEAD_BEEFu32.to_le_bytes());
}

#[test]
fn displacement_is_the_twos_complement_of_the_difference() {
    assert_eq!(displacement(34, 17, 0), 17);
    assert_eq!(displacement(0, 28, 6), (-34i32) as u32);
    assert_eq!(displacement(100, 94, 6), 0);
    assert_eq!(displacement(0, 0, 6), 0xFFFF_FFFA);
    assert_eq!(displacement(0x00c0_ffee, 11, 6), 0x00c0_ffdd);
}

#[test]
fn mov_register_from_memory() {
    let code = emitted(|a| a.emit_mov(Operand::Register(RAX), Operand::MemoryByRegister(RSI)));
    assert_eq!(code, vec![0x48, 0x8B, 0x06]);
    let code = emitted(|a| a.emit_mov(Operand::Register(RDX), Operand::MemoryByRegister(RDI)));
    assert_eq!(code, vec![0x48, 0x8B, 0x17]);
}

#[test]
fn mov_register_from_immediate() {
    let code = emitted(|a| a.emit_mov(Operand::Register(RAX), Operand::Immediate(1)));
    assert_eq!(code, vec![0x48, 0xC7, 0xC0, 0x01, 0x00, 0x00, 0x00]);
    let code = emitted(|a| a.emit_mov(Operand::Register(RDI), Operand::Immediate(0x1234_5678)));
    assert_eq!(code, vec![0x48, 0xC7, 0xC7, 0x78, 0x56, 0x34, 0x12]);
    let code = emitted(|a| a.emit_mov(Operand::Register(RDX), Operand::Immediate(u32::MAX)));
    assert_eq!(code, vec![0x48, 0xC7, 0xC2, 0xFF, 0xFF, 0xFF, 0xFF]);
}

#[test]
fn mov_memory_from_register() {
    let code = emitted(|a| a.emit_mov(Operand::MemoryByRegister(RSI), Operand::Register(RAX)));
    assert_eq!(code, vec![0x48, 0x89, 0x06]);
    let code = emitted(|a| a.emit_mov(Operand::MemoryByRegister(RDI), Operand::Register(RDX)));
    assert_eq!(code, vec![0x48, 0x89, 0x17]);
}

#[test]
fn mov_register_from_base_and_offset() {
    let code = emitted(|a| {
        a.emit_mov(Operand::Register(RAX), Operand::MemoryByRegisterAndOffset(RDI, RAX))
    });
    assert_eq!(code, vec![0x48, 0x8B, 0x04, 0x07]);
    let code = emitted(|a| {
        a.emit_mov(Operand::Register(RDX), Operand::MemoryByRegisterAndOffset(RSI, RDI))
    });
    assert_eq!(code, vec![0x48, 0x8B, 0x14, 0x3E]);
}

#[test]
fn mov_register_from_register() {
    let code = emitted(|a| a.emit_mov(Operand::Register(RSI), Operand::Register(RAX)));
    assert_eq!(code, vec![0x48, 0x89, 0xC6]);
    let code = emitted(|a| a.emit_mov(Operand::Register(RAX), Operand::Register(RDI)));
    assert_eq!(code, vec![0x48, 0x89, 0xF8]);
}

#[test]
fn movzx_register_from_byte_at_base_and_offset() {
    let code = emitted(|a| {
        a.emit_movzx(Operand::Register(RAX), Operand::MemoryByRegisterAndOffset(RDI, RAX))
    });
    assert_eq!(code, vec![0x0F, 0xB6, 0x04, 0x07]);
}

#[test]
fn add_forms() {
    let code = emitted(|a| a.emit_add(Operand::Register(RAX), Operand::Immediate8(5)));
    assert_eq!(code, vec![0x48, 0x83, 0xC0, 0x05]);
    let code = emitted(|a| a.emit_add(Operand::Register(RAX), Operand::Immediate(0x0102_0304)));
    assert_eq!(code, vec![0x48, 0x81, 0xC0, 0x04, 0x03, 0x02, 0x01]);
    let code = emitted(|a| {
        a.emit_add(Operand::MemoryByRegisterAndOffset(RDI, RAX), Operand::Immediate8(7))
    });
    assert_eq!(code, vec![0x80, 0x04, 0x38, 0x07]);
    let code = emitted(|a| a.emit_add(Operand::Register(RAX), Operand::Register(RDI)));
    assert_eq!(code, vec![0x48, 0x01, 0xF8]);
}

#[test]
fn sub_forms() {
    let code = emitted(|a| a.emit_sub(Operand::Register(RAX), Operand::Immediate8(5)));
    assert_eq!(code, vec![0x48, 0x83, 0xE8, 0x05]);
    let code = emitted(|a| a.emit_sub(Operand::Register(RDX), Operand::Immediate(3)));
    assert_eq!(code, vec![0x48, 0x81, 0xEA, 0x03, 0x00, 0x00, 0x00]);
    let code = emitted(|a| {
        a.emit_sub(Operand::MemoryByRegisterAndOffset(RDI, RAX), Operand::Immediate8(1))
    });
    assert_eq!(code, vec![0x80, 0x2C, 0x38, 0x01]);
}

#[test]
fn push_and_pop() {
    assert_eq!(emitted(|a| a.emit_push(Operand::Register(RDI))), vec![0x57]);
    assert_eq!(emitted(|a| a.emit_push(Operand::Register(RSI))), vec![0x56]);
    assert_eq!(emitted(|a| a.emit_pop(Operand::Register(RSI))), vec![0x5E]);
    assert_eq!(emitted(|a| a.emit_pop(Operand::Register(RDI))), vec![0x5F]);
    assert_eq!(emitted(|a| a.emit_pop(Operand::Register(RAX))), vec![0x58]);
}

#[test]
fn compare_register_with_immediate() {
    let code = emitted(|a| a.emit_compare(Operand::Register(RAX), Operand::Immediate8(0)));
    assert_eq!(code, vec![0x48, 0x83, 0xF8, 0x00]);
    let code = emitted(|a| a.emit_compare(Operand::Register(RDX), Operand::Immediate8(9)));
    assert_eq!(code, vec![0x48, 0x83, 0xFA, 0x09]);
}

#[test]
fn syscall_and_return() {
    assert_eq!(emitted(|a| a.emit_syscall()), vec![0x0F, 0x05]);
    assert_eq!(emitted(|a| a.emit_return()), vec![0xC3]);
}

#[test]
fn jump_displacement_counts_from_the_end_of_the_instruction() {
    let code = emitted(|a| a.emit_jump_if_zero(6));
    assert_eq!(code, vec![0x0F, 0x84, 0x00, 0x00, 0x00, 0x00]);
    let code = emitted(|a| a.emit_jump_if_zero(0x106));
    assert_eq!(code, vec![0x0F, 0x84, 0x00, 0x01, 0x00, 0x00]);
    let code = emitted(|a| a.emit_jump_if_non_zero(0));
    assert_eq!(code, vec![0x0F, 0x85, 0xFA, 0xFF, 0xFF, 0xFF]);
}

#[test]
fn jump_from_a_later_position() {
    let mut assembler = X86Assembler::default();
    assembler.emit(&[0x90; 10]);
    assembler.emit_jump_if_non_zero(0);
    assembler.emit_jump_if_zero(30);
    let code = assembler.code();
    assert_eq!(&code[10..16], &[0x0F, 0x85, 0xF0, 0xFF, 0xFF, 0xFF]);
    assert_eq!(&code[16..22], &[0x0F, 0x84, 0x08, 0x00, 0x00, 0x00]);
    assert_eq!(assembler.position(), 22);
}

#[test]
fn patch_rewrites_the_four_bytes_before_the_site() {
    let mut assembler = X86Assembler::default();
    assembler.emit(&[0x90]);
    assembler.emit_jump_if_zero(0x00c0_ffee);
    let site = assembler.position();
    assert_eq!(site, 7);
    assembler.emit(&[0x90, 0x90, 0x90]);
    assembler.patch_jump_target(site, 10);
    assert_eq!(
        assembler.code(),
        &vec![0x90, 0x0F, 0x84, 0x03, 0x00, 0x00, 0x00, 0x90, 0x90, 0x90]
    );
    assembler.patch_jump_target(site, 0);
    assert_eq!(
        assembler.code(),
        &vec![0x90, 0x0F, 0x84, 0xF9, 0xFF, 0xFF, 0xFF, 0x90, 0x90, 0x90]
    );
}

#[test]
fn patch_at_the_end_of_the_buffer() {
    let mut assembler = X86Assembler::default();
    assembler.emit(&[0xAA, 0xBB, 0xCC, 0xDD]);
    assembler.patch_jump_target(4, 0x0102_0304 + 4);
    assert_eq!(assembler.code(), &vec![0x04, 0x03, 0x02, 0x01]);
}

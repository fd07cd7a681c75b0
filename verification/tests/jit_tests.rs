use bf_jit::assembler::X86Assembler;
use bf_jit::jit::{CompileError, JitCompiler, PLACEHOLDER_TARGET, TAPE_SIZE};
use bf_jit::lexer::Lexer;
use bf_jit::parser::{Instruction, Parser};

const LOAD_CURSOR: [u8; 3] = [0x48, 0x8B, 0x06];
const STORE_CURSOR: [u8; 3] = [0x48, 0x89, 0x06];
const TEST_CELL: [u8; 11] = [0x48, 0x8B, 0x06, 0x0F, 0xB6, 0x04, 0x07, 0x48, 0x83, 0xF8, 0x00];
const WRITE: [u8; 36] = [
    0x57, 0x56, 0x48, 0x8B, 0x06, 0x48, 0x01, 0xF8, 0x48, 0x89, 0xC6, 0x48, 0xC7, 0xC0, 0x01,
    0x00, 0x00, 0x00, 0x48, 0xC7, 0xC7, 0x01, 0x00, 0x00, 0x00, 0x48, 0xC7, 0xC2, 0x01, 0x00,
    0x00, 0x00, 0x0F, 0x05, 0x5E, 0x5F,
];

fn compile(program: Vec<Instruction>) -> (Result<(), CompileError>, Vec<u8>) {
    assert!(JitCompiler::closers_have_openers(&program));
    let mut jit = JitCompiler::new(program, X86Assembler::default());
    let result = jit.compile();
    (result, jit.assembler.code().clone())
}

fn compile_source(source: &str) -> Vec<u8> {
    let mut lexer = Lexer::new(source.as_bytes().to_vec());
    let program = Parser::default().parse_program(&mut lexer).unwrap();
    let (result, code) = compile(program);
    assert_eq!(result, Ok(()));
    code
}

fn concat(parts: &[&[u8]]) -> Vec<u8> {
    parts.iter().flat_map(|part| part.iter().copied()).collect()
}

#[test]
fn new_compiler_has_a_zeroed_tape_and_cursor() {
    let program = vec![Instruction::Inc(1)];
    let jit = JitCompiler::new(program.clone(), X86Assembler::default());
    assert_eq!(TAPE_SIZE, 640000);
    assert_eq!(jit.memory.len(), 640000);
    assert!(jit.memory.iter().all(|cell| *cell == 0));
    assert_eq!(jit.addr, 0);
    assert_eq!(jit.program, program);
    assert_eq!(jit.assembler.position(), 0);
}

#[test]
fn new_compiler_keeps_the_assembler_it_is_given() {
    let mut assembler = X86Assembler::default();
    assembler.emit(&[1, 2, 3]);
    let jit = JitCompiler::new(Vec::new(), assembler);
    assert_eq!(jit.assembler.code(), &vec![1, 2, 3]);
}

#[test]
fn empty_program_compiles_to_a_lone_return() {
    assert_eq!(compile(vec![]), (Ok(()), vec![0xC3]));
    assert_eq!(compile_source(""), vec![0xC3]);
}

#[test]
fn compile_discards_what_the_assembler_held() {
    let mut assembler = X86Assembler::default();
    assembler.emit(&[1, 2, 3]);
    let mut jit = JitCompiler::new(Vec::new(), assembler);
    assert_eq!(jit.compile(), Ok(()));
    assert_eq!(jit.assembler.code(), &vec![0xC3]);
}

#[test]
fn compile_twice_yields_the_same_code() {
    let program = vec![
        Instruction::Inc(2),
        Instruction::JmpForward(4),
        Instruction::Dec(1),
        Instruction::JmpBack(2),
        Instruction::Output(1),
    ];
    let mut jit = JitCompiler::new(program.clone(), X86Assembler::default());
    assert_eq!(jit.compile(), Ok(()));
    let first = jit.assembler.code().clone();
    assert_eq!(jit.compile(), Ok(()));
    assert_eq!(jit.assembler.code(), &first);
    assert_eq!(compile(program), (Ok(()), first));
}

#[test]
fn cursor_moves_use_a_32_bit_immediate() {
    let (result, code) = compile(vec![Instruction::AddrRight(5)]);
    assert_eq!(result, Ok(()));
    assert_eq!(
        code,
        concat(&[&LOAD_CURSOR, &[0x48, 0x81, 0xC0, 5, 0, 0, 0], &STORE_CURSOR, &[0xC3]])
    );
    let (result, code) = compile(vec![Instruction::AddrLeft(0x0102_0304)]);
    assert_eq!(result, Ok(()));
    assert_eq!(
        code,
        concat(&[&LOAD_CURSOR, &[0x48, 0x81, 0xE8, 4, 3, 2, 1], &STORE_CURSOR, &[0xC3]])
    );
}

#[test]
fn cell_arithmetic_uses_a_byte_immediate() {
    let (result, code) = compile(vec![Instruction::Inc(7), Instruction::Dec(254)]);
    assert_eq!(result, Ok(()));
    assert_eq!(
        code,
        concat(&[
            &LOAD_CURSOR,
            &[0x80, 0x04, 0x38, 7],
            &LOAD_CURSOR,
            &[0x80, 0x2C, 0x38, 254],
            &[0xC3],
        ])
    );
}

#[test]
fn output_repeats_the_write_sequence() {
    let (result, code) = compile(vec![Instruction::Output(1)]);
    assert_eq!(result, Ok(()));
    assert_eq!(code, concat(&[&WRITE, &[0xC3]]));
    let (result, code) = compile(vec![Instruction::Output(3)]);
    assert_eq!(result, Ok(()));
    assert_eq!(code, concat(&[&WRITE, &WRITE, &WRITE, &[0xC3]]));
    let (result, code) = compile(vec![Instruction::Output(0)]);
    assert_eq!(result, Ok(()));
    assert_eq!(code, vec![0xC3]);
}

#[test]
fn loop_branches_back_to_its_opening_test_and_forward_past_its_end() {
    let code = compile_source("[]");
    assert_eq!(
        code,
        concat(&[
            &TEST_CELL,
            &[0x0F, 0x84, 17, 0, 0, 0],
            &TEST_CELL,
            &[0x0F, 0x85, 0xDE, 0xFF, 0xFF, 0xFF],
            &[0xC3],
        ])
    );
}

#[test]
fn loop_with_a_body() {
    let code = compile_source("+[-]");
    let inc = concat(&[&LOAD_CURSOR, &[0x80, 0x04, 0x38, 1]]);
    let dec = concat(&[&LOAD_CURSOR, &[0x80, 0x2C, 0x38, 1]]);
    // offsets: inc 0..7, opening test 7..18, je 18..24, dec 24..31,
    // closing test 31..42, jne 42..48, ret 48
    assert_eq!(
        code,
        concat(&[
            &inc,
            &TEST_CELL,
            &[0x0F, 0x84, 24, 0, 0, 0],
            &dec,
            &TEST_CELL,
            &[0x0F, 0x85, 0xD7, 0xFF, 0xFF, 0xFF],
            &[0xC3],
        ])
    );
    assert_eq!(code.len(), 49);
}

#[test]
fn nested_loops_patch_the_innermost_first() {
    let code = compile_source("[[]]");
    // offsets: outer test 0..11, je 11..17, inner test 17..28, je 28..34,
    // inner closing test 34..45, jne 45..51, outer closing test 51..62,
    // jne 62..68, ret 68
    assert_eq!(
        code,
        concat(&[
            &TEST_CELL,
            &[0x0F, 0x84, 51, 0, 0, 0],
            &TEST_CELL,
            &[0x0F, 0x84, 17, 0, 0, 0],
            &TEST_CELL,
            &[0x0F, 0x85, 0xDE, 0xFF, 0xFF, 0xFF],
            &TEST_CELL,
            &[0x0F, 0x85, 0xBC, 0xFF, 0xFF, 0xFF],
            &[0xC3],
        ])
    );
}

#[test]
fn unclosed_loop_keeps_the_placeholder() {
    let (result, code) = compile(vec![Instruction::JmpForward(0)]);
    assert_eq!(result, Ok(()));
    assert_eq!(PLACEHOLDER_TARGET, 0x00c0_ffee);
    assert_eq!(code, concat(&[&TEST_CELL, &[0x0F, 0x84, 0xDD, 0xFF, 0xC0, 0x00], &[0xC3]]));
}

#[test]
fn jump_targets_of_the_program_are_not_read() {
    let (_, with_targets) =
        compile(vec![Instruction::JmpForward(2), Instruction::JmpBack(1)]);
    let (_, without) = compile(vec![Instruction::JmpForward(0), Instruction::JmpBack(0)]);
    assert_eq!(with_targets, without);
}

#[test]
fn input_is_refused() {
    let (result, code) = compile(vec![Instruction::Input(1)]);
    assert_eq!(result, Err(CompileError::UnsupportedOperation));
    assert_eq!(code, Vec::<u8>::new());
}

#[test]
fn input_is_refused_after_the_code_before_it() {
    let (result, code) =
        compile(vec![Instruction::Inc(1), Instruction::Input(2), Instruction::Dec(1)]);
    assert_eq!(result, Err(CompileError::UnsupportedOperation));
    assert_eq!(code, concat(&[&LOAD_CURSOR, &[0x80, 0x04, 0x38, 1]]));
}

#[test]
fn closers_have_openers_tells_stray_closers() {
    assert!(JitCompiler::closers_have_openers(&vec![]));
    assert!(JitCompiler::closers_have_openers(&vec![Instruction::JmpForward(0)]));
    assert!(JitCompiler::closers_have_openers(&vec![
        Instruction::JmpForward(2),
        Instruction::JmpBack(1),
    ]));
    assert!(!JitCompiler::closers_have_openers(&vec![Instruction::JmpBack(1)]));
    assert!(!JitCompiler::closers_have_openers(&vec![
        Instruction::JmpForward(2),
        Instruction::JmpBack(1),
        Instruction::Inc(1),
        Instruction::JmpBack(1),
    ]));
}

#[test]
fn source_with_comments_compiles_like_its_operators() {
    assert_eq!(compile_source("++ hello\n ++."), compile_source("++++."));
    assert_eq!(
        compile_source("++++."),
        concat(&[&LOAD_CURSOR, &[0x80, 0x04, 0x38, 4], &WRITE, &[0xC3]])
    );
}

fn code_len(instruction: &Instruction) -> usize {
    match *instruction {
        Instruction::AddrRight(_) | Instruction::AddrLeft(_) => 13,
        Instruction::Inc(_) | Instruction::Dec(_) => 7,
        Instruction::Output(n) => 36 * n,
        Instruction::Input(_) => 0,
        Instruction::JmpForward(_) | Instruction::JmpBack(_) => 17,
    }
}

fn branch_target(code: &[u8], at: usize) -> usize {
    let displacement =
        i32::from_le_bytes([code[at + 2], code[at + 3], code[at + 4], code[at + 5]]);
    ((at + 6) as i64 + displacement as i64) as usize
}

#[test]
fn branches_lead_to_the_code_of_the_jump_targets() {
    let source = "++[>+++[>++<-]<-]>>.[[-]+[-]]";
    let mut lexer = Lexer::new(source.as_bytes().to_vec());
    let program = Parser::default().parse_program(&mut lexer).unwrap();
    let (result, code) = compile(program.clone());
    assert_eq!(result, Ok(()));

    let mut offsets = vec![0];
    for instruction in &program {
        offsets.push(offsets.last().unwrap() + code_len(instruction));
    }
    assert_eq!(code.len(), offsets[program.len()] + 1);

    let mut brackets = 0;
    for (i, instruction) in program.iter().enumerate() {
        match *instruction {
            Instruction::JmpForward(target) => {
                assert_eq!(&code[offsets[i] + 11..offsets[i] + 13], &[0x0F, 0x84]);
                assert_eq!(branch_target(&code, offsets[i] + 11), offsets[target]);
                brackets += 1;
            }
            Instruction::JmpBack(target) => {
                assert_eq!(&code[offsets[i] + 11..offsets[i] + 13], &[0x0F, 0x85]);
                assert_eq!(branch_target(&code, offsets[i] + 11), offsets[target - 1]);
                brackets += 1;
            }
            _ => {}
        }
    }
    assert_eq!(brackets, 10);
}

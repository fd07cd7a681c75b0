use bf_jit::interpreter::{Action, Intepreter};
use bf_jit::jit::CompileError;
use bf_jit::lexer::{Lexer, Location};
use bf_jit::parser::{Instruction, ParseError, Parser};
use bf_jit::pipeline::{compile_source, Error};

fn parse(source: &str) -> Vec<Instruction> {
    let mut lexer = Lexer::new(source.as_bytes().to_vec());
    Parser::default().parse_program(&mut lexer).unwrap()
}

/// Runs `source` for at most `limit` steps; the output, and whether the
/// program ended.
fn interpret(source: &str, limit: usize) -> (Vec<u8>, bool) {
    let mut interpreter = Intepreter::new(parse(source));
    let mut output = Vec::new();
    for _ in 0..limit {
        assert!(interpreter.is_ready());
        match interpreter.step() {
            Action::Continue => {}
            Action::Write { byte, count } => {
                for _ in 0..count {
                    output.push(byte);
                }
            }
            Action::Halt => return (output, true),
        }
    }
    (output, false)
}

#[test]
fn empty_source_writes_nothing() {
    assert_eq!(interpret("", 10), (vec![], true));
    let jit = compile_source(Vec::new()).unwrap();
    assert_eq!(jit.assembler.code(), &vec![0xC3]);
    assert!(jit.program.is_empty());
}

#[test]
fn seven_times_ten_plus_three_writes_one_byte() {
    assert_eq!(interpret("+++++++[>++++++++++<-]>+++.", 10_000), (vec![7 * 10 + 3], true));
}

#[test]
fn thirteen_times_five_writes_the_letter_a() {
    assert_eq!(interpret("+++++++++++++[>+++++<-]>.", 10_000), (vec![0x41], true));
}

#[test]
fn digit_seven_program_writes_the_digit_seven() {
    assert_eq!(interpret("++>+++++[<+>-]++++++++[<++++++>-]<.", 10_000), (vec![0x37], true));
}

#[test]
fn loop_on_a_cell_that_stays_set_never_ends() {
    let (output, ended) = interpret("+[]. the rest is never reached", 100_000);
    assert!(!ended);
    assert!(output.is_empty());
}

#[test]
fn comments_and_newlines_do_not_change_the_output() {
    assert_eq!(interpret("++ hello\n ++.", 100), (vec![0x04], true));
}

#[test]
fn output_count_repeats_the_byte() {
    assert_eq!(interpret("+++...", 100), (vec![3, 3, 3], true));
}

#[test]
fn cells_wrap_modulo_256() {
    assert_eq!(interpret("-.", 100), (vec![255], true));
    assert_eq!(interpret("--++++.", 100), (vec![2], true));
    let mut interpreter = Intepreter::new(vec![
        Instruction::Inc(200),
        Instruction::Inc(100),
        Instruction::Output(1),
        Instruction::Dec(45),
        Instruction::Output(1),
    ]);
    assert_eq!(interpreter.step(), Action::Continue);
    assert_eq!(interpreter.step(), Action::Continue);
    assert_eq!(interpreter.step(), Action::Write { byte: 44, count: 1 });
    assert_eq!(interpreter.step(), Action::Continue);
    assert_eq!(interpreter.step(), Action::Write { byte: 255, count: 1 });
    assert_eq!(interpreter.step(), Action::Halt);
    assert_eq!(interpreter.step(), Action::Halt);
}

#[test]
fn new_interpreter_starts_with_a_zeroed_tape() {
    let interpreter = Intepreter::new(vec![Instruction::Inc(1)]);
    assert_eq!(interpreter.memory.len(), 640000);
    assert!(interpreter.memory.iter().all(|cell| *cell == 0));
    assert_eq!(interpreter.addr, 0);
    assert_eq!(interpreter.instruction_ptr, 0);
    assert_eq!(interpreter.program, vec![Instruction::Inc(1)]);
}

#[test]
fn cursor_moves_and_jumps_follow_the_targets() {
    let mut interpreter = Intepreter::new(parse(">>><[-]+[>]"));
    assert_eq!(interpreter.step(), Action::Continue);
    assert_eq!((interpreter.addr, interpreter.instruction_ptr), (3, 1));
    assert_eq!(interpreter.step(), Action::Continue);
    assert_eq!((interpreter.addr, interpreter.instruction_ptr), (2, 2));
    // the cell is zero: the opening bracket leads past its closing bracket
    assert_eq!(interpreter.step(), Action::Continue);
    assert_eq!(interpreter.instruction_ptr, 5);
    assert_eq!(interpreter.step(), Action::Continue);
    assert_eq!(interpreter.memory[2], 1);
    // the cell is set: the opening bracket leads into the loop
    assert_eq!(interpreter.step(), Action::Continue);
    assert_eq!(interpreter.instruction_ptr, 7);
    assert_eq!(interpreter.step(), Action::Continue);
    assert_eq!((interpreter.addr, interpreter.instruction_ptr), (3, 8));
    // the cell is zero: the closing bracket lets the program go on
    assert_eq!(interpreter.step(), Action::Continue);
    assert_eq!(interpreter.instruction_ptr, 9);
    assert_eq!(interpreter.step(), Action::Halt);
}

#[test]
fn closing_bracket_leads_back_while_the_cell_is_set() {
    let mut interpreter = Intepreter::new(parse("++[-]"));
    assert_eq!(interpreter.step(), Action::Continue);
    assert_eq!(interpreter.step(), Action::Continue);
    assert_eq!(interpreter.instruction_ptr, 2);
    assert_eq!(interpreter.step(), Action::Continue);
    assert_eq!(interpreter.step(), Action::Continue);
    assert_eq!(interpreter.instruction_ptr, 2);
    assert_eq!(interpreter.step(), Action::Continue);
    assert_eq!(interpreter.step(), Action::Continue);
    assert_eq!(interpreter.instruction_ptr, 4);
    assert_eq!(interpreter.memory[0], 0);
}

#[test]
fn interpreter_is_not_ready_where_an_instruction_would_fault() {
    assert!(!Intepreter::new(vec![Instruction::AddrLeft(1)]).is_ready());
    assert!(!Intepreter::new(vec![Instruction::Input(1)]).is_ready());
    let mut interpreter =
        Intepreter::new(vec![Instruction::AddrRight(640000), Instruction::Inc(1)]);
    assert!(interpreter.is_ready());
    assert_eq!(interpreter.step(), Action::Continue);
    assert!(!interpreter.is_ready());
    let mut interpreter =
        Intepreter::new(vec![Instruction::AddrRight(1), Instruction::AddrRight(usize::MAX)]);
    assert_eq!(interpreter.step(), Action::Continue);
    assert!(!interpreter.is_ready());
    assert!(Intepreter::new(vec![]).is_ready());
}

#[test]
fn compile_source_reports_the_parse_error() {
    assert_eq!(
        compile_source(b"]".to_vec()).err(),
        Some(Error::Parse(ParseError::UnmatchedClosingBracket(Location { line: 1, column: 1 })))
    );
    assert_eq!(
        compile_source(b"[".to_vec()).err(),
        Some(Error::Parse(ParseError::UnmatchedOpeningBracket))
    );
}

#[test]
fn compile_source_refuses_input() {
    assert_eq!(
        compile_source(b"+,".to_vec()).err(),
        Some(Error::Compile(CompileError::UnsupportedOperation))
    );
}

#[test]
fn compile_source_is_deterministic() {
    let source = b"++>+++++[<+>-]++++++++[<++++++>-]<.".to_vec();
    let first = compile_source(source.clone()).unwrap();
    let second = compile_source(source).unwrap();
    assert_eq!(first.assembler.code(), second.assembler.code());
    assert_eq!(first.program, second.program);
    assert_eq!(first.program, parse("++>+++++[<+>-]++++++++[<++++++>-]<."));
    assert_eq!(first.memory.len(), 640000);
    assert_eq!(first.addr, 0);
}

#[test]
fn compile_source_yields_the_code_of_the_program() {
    let jit = compile_source(b"+ one".to_vec()).unwrap();
    assert_eq!(jit.program, vec![Instruction::Inc(1)]);
    assert_eq!(jit.assembler.code(), &vec![0x48, 0x8B, 0x06, 0x80, 0x04, 0x38, 0x01, 0xC3]);
}

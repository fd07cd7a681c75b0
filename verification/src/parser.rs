//! The parser: it folds runs of one operator into a single counted
//! instruction and resolves each pair of brackets into two jump targets.

use crate::lexer::{
    is_operator, is_operator_char, lemma_next_operator, lemma_run_end_differs,
    lemma_run_from_next_operator, location_at, next_operator, run_end, run_length, Lexer,
    Location, Token,
};
use vstd::prelude::*;

verus! {

/// One instruction of a program. A jump target is the index of the
/// instruction that runs next: one past the matching bracket.
#[derive(Debug, Clone, Copy, PartialEq, Eq, Structural)]
pub enum Instruction {
    /// Advance the tape cursor.
    AddrRight(usize),
    /// Retreat the tape cursor.
    AddrLeft(usize),
    /// Add to the current cell, modulo 256.
    Inc(u8),
    /// Subtract from the current cell, modulo 256.
    Dec(u8),
    /// Write the current cell to the output this many times.
    Output(usize),
    /// Read this many bytes into the current cell.
    Input(usize),
    /// Jump to the target where the current cell is zero.
    JmpForward(usize),
    /// Jump to the target where the current cell is not zero.
    JmpBack(usize),
}

/// A program: instructions addressed by their index, from zero.
pub type Program = Vec<Instruction>;

/// Why a source is not a program.
#[derive(Debug, Clone, Copy, PartialEq, Eq, Structural)]
pub enum ParseError {
    /// A `]` stands at this location with no `[` open before it.
    UnmatchedClosingBracket(Location),
    /// The source ends while a `[` is still open.
    UnmatchedOpeningBracket,
}

/// The instruction that a run of `n` operators `c` stands for, where `c` is
/// none of the brackets. The count of `+` and `-` is folded modulo 255.
pub open spec fn counted(c: char, n: nat) -> Instruction {
    if c == '<' {
        Instruction::AddrLeft(n as usize)
    } else if c == '>' {
        Instruction::AddrRight(n as usize)
    } else if c == '+' {
        Instruction::Inc((n % 255) as u8)
    } else if c == '-' {
        Instruction::Dec((n % 255) as u8)
    } else if c == '.' {
        Instruction::Output(n as usize)
    } else {
        Instruction::Input(n as usize)
    }
}

/// What parsing yields from index `i` of `s` on, when the instructions
/// `program` have been produced so far and the brackets at the indices
/// `open` of `program` await their closing bracket.
pub open spec fn parse_from(
    s: Seq<u8>,
    i: int,
    program: Seq<Instruction>,
    open: Seq<usize>,
) -> Result<Seq<Instruction>, ParseError>
    decreases s.len() - i,
{
    if i < 0 || i >= s.len() {
        if open.len() == 0 {
            Ok(program)
        } else {
            Err(ParseError::UnmatchedOpeningBracket)
        }
    } else if !is_operator(s[i]) {
        parse_from(s, i + 1, program, open)
    } else if s[i] as char == '[' {
        parse_from(
            s,
            i + 1,
            program.push(Instruction::JmpForward(0)),
            open.push(program.len() as usize),
        )
    } else if s[i] as char == ']' {
        if open.len() == 0 {
            Err(ParseError::UnmatchedClosingBracket(location_at(s, i)))
        } else {
            parse_from(s, i + 1, close_bracket(program, open.last()), open.drop_last())
        }
    } else {
        proof {
            lemma_run_from_next_operator(s, i + 1, s[i] as char);
        }
        parse_from(
            s,
            run_end(s, i + 1, s[i] as char),
            program.push(counted(s[i] as char, 1 + run_length(s, i + 1, s[i] as char))),
            open,
        )
    }
}

/// `program` after a closing bracket for the opening bracket at index
/// `opener`: the opener leads past the new closer, and the new closer leads
/// past the opener.
pub open spec fn close_bracket(program: Seq<Instruction>, opener: usize) -> Seq<Instruction> {
    program.update(opener as int, Instruction::JmpForward((program.len() + 1) as usize)).push(
        Instruction::JmpBack((opener + 1) as usize),
    )
}

/// Whether two instructions open a loop alike and close a loop alike.
pub open spec fn same_bracket_kind(a: Instruction, b: Instruction) -> bool {
    &&& a is JmpForward <==> b is JmpForward
    &&& a is JmpBack <==> b is JmpBack
}

/// What parsing the source `s` yields: its program, or the reason why it has
/// none.
pub open spec fn parse(s: Seq<u8>) -> Result<Seq<Instruction>, ParseError> {
    parse_from(s, 0, Seq::empty(), Seq::empty())
}

/// Every jump leads one past a jump of the other kind that leads one past
/// the first, and an opening bracket stands before its closing bracket.
pub open spec fn brackets_matched(p: Seq<Instruction>) -> bool {
    forall|i: int|
        0 <= i < p.len() ==> match #[trigger] p[i] {
            Instruction::JmpForward(t) => i + 1 < t <= p.len() && p[t - 1]
                == Instruction::JmpBack((i + 1) as usize),
            Instruction::JmpBack(t) => 0 < t <= i && p[t - 1] == Instruction::JmpForward(
                (i + 1) as usize,
            ),
            _ => true,
        }
}

/// Bytes outside the alphabet change nothing in what parsing yields.
pub proof fn lemma_parse_from_next_operator(
    s: Seq<u8>,
    i: int,
    program: Seq<Instruction>,
    open: Seq<usize>,
)
    requires
        0 <= i <= s.len(),
    ensures
        parse_from(s, i, program, open) == parse_from(s, next_operator(s, i), program, open),
    decreases s.len() - i,
{
    if i < s.len() && !is_operator(s[i]) {
        lemma_parse_from_next_operator(s, i + 1, program, open);
    }
}

/// What holds of `program` between two tokens, with the brackets at the
/// indices `open` awaiting their closing bracket: an open bracket holds the
/// target zero, the open brackets are listed in the order in which they
/// stand, and all other jumps are matched.
pub open spec fn partially_matched(program: Seq<Instruction>, open: Seq<usize>) -> bool {
    &&& forall|j: int|
        0 <= j < open.len() ==> (#[trigger] open[j]) < program.len() && program[open[j] as int]
            == Instruction::JmpForward(0)
    &&& forall|j: int, k: int| 0 <= j < k < open.len() ==> (#[trigger] open[j]) < (#[trigger] open[k])
    &&& forall|i: int|
        0 <= i < program.len() ==> match #[trigger] program[i] {
            Instruction::JmpForward(t) => if t == 0 {
                open.contains(i as usize)
            } else {
                i + 1 < t <= program.len() && program[t - 1] == Instruction::JmpBack(
                    (i + 1) as usize,
                )
            },
            Instruction::JmpBack(t) => 0 < t <= i && program[t - 1] == Instruction::JmpForward(
                (i + 1) as usize,
            ),
            _ => true,
        }
}

/// An opening bracket keeps a partially matched program partially matched.
pub proof fn lemma_open_keeps_matched(program: Seq<Instruction>, open: Seq<usize>)
    requires
        partially_matched(program, open),
        program.len() < usize::MAX,
    ensures
        partially_matched(
            program.push(Instruction::JmpForward(0)),
            open.push(program.len() as usize),
        ),
{
    let p2 = program.push(Instruction::JmpForward(0));
    let o2 = open.push(program.len() as usize);
    assert forall|i: int| 0 <= i < p2.len() implies match #[trigger] p2[i] {
        Instruction::JmpForward(t) => if t == 0 {
            o2.contains(i as usize)
        } else {
            i + 1 < t <= p2.len() && p2[t - 1] == Instruction::JmpBack((i + 1) as usize)
        },
        Instruction::JmpBack(t) => 0 < t <= i && p2[t - 1] == Instruction::JmpForward(
            (i + 1) as usize,
        ),
        _ => true,
    } by {
        if i < program.len() {
            assert(p2[i] == program[i]);
            if program[i] == Instruction::JmpForward(0) {
                let j = choose|j: int| 0 <= j < open.len() && open[j] == i as usize;
                assert(o2[j] == i as usize);
            }
        } else {
            assert(o2[open.len() as int] == i as usize);
        }
    }
}

/// A closing bracket for the innermost open bracket keeps a partially
/// matched program partially matched.
pub proof fn lemma_close_keeps_matched(program: Seq<Instruction>, open: Seq<usize>)
    requires
        partially_matched(program, open),
        program.len() < usize::MAX,
        open.len() > 0,
    ensures
        partially_matched(close_bracket(program, open.last()), open.drop_last()),
{
    let o = open.last();
    let p2 = close_bracket(program, o);
    let o2 = open.drop_last();
    assert(o == open[open.len() - 1]);
    assert forall|j: int| 0 <= j < o2.len() implies (#[trigger] o2[j]) < p2.len() && p2[o2[j] as int]
        == Instruction::JmpForward(0) by {
        assert(o2[j] == open[j]);
        assert(open[j] < open[open.len() - 1]);
    }
    assert forall|i: int| 0 <= i < p2.len() implies match #[trigger] p2[i] {
        Instruction::JmpForward(t) => if t == 0 {
            o2.contains(i as usize)
        } else {
            i + 1 < t <= p2.len() && p2[t - 1] == Instruction::JmpBack((i + 1) as usize)
        },
        Instruction::JmpBack(t) => 0 < t <= i && p2[t - 1] == Instruction::JmpForward(
            (i + 1) as usize,
        ),
        _ => true,
    } by {
        if i < program.len() && i != o {
            assert(p2[i] == program[i]);
            match program[i] {
                Instruction::JmpForward(t) => {
                    if t == 0 {
                        let j = choose|j: int| 0 <= j < open.len() && open[j] == i as usize;
                        assert(o2[j] == i as usize);
                    } else {
                        assert(p2[t - 1] == program[t - 1]);
                    }
                },
                Instruction::JmpBack(t) => {
                    assert(p2[t - 1] == program[t - 1]);
                },
                _ => {},
            }
        }
    }
}

/// Parsing a partially matched program to the end yields a program whose
/// brackets are matched.
pub proof fn lemma_parse_from_matched(
    s: Seq<u8>,
    i: int,
    program: Seq<Instruction>,
    open: Seq<usize>,
)
    requires
        0 <= i <= s.len() <= usize::MAX,
        program.len() <= i,
        partially_matched(program, open),
    ensures
        match parse_from(s, i, program, open) {
            Ok(p) => brackets_matched(p),
            Err(_) => true,
        },
    decreases s.len() - i,
{
    if i >= s.len() {
        if open.len() == 0 {
            assert forall|n: int| 0 <= n < program.len() implies match #[trigger] program[n] {
                Instruction::JmpForward(t) => n + 1 < t <= program.len() && program[t - 1]
                    == Instruction::JmpBack((n + 1) as usize),
                Instruction::JmpBack(t) => 0 < t <= n && program[t - 1]
                    == Instruction::JmpForward((n + 1) as usize),
                _ => true,
            } by {
                assert(!open.contains(n as usize));
            }
        }
    } else if !is_operator(s[i]) {
        lemma_parse_from_matched(s, i + 1, program, open);
    } else if s[i] as char == '[' {
        lemma_open_keeps_matched(program, open);
        lemma_parse_from_matched(
            s,
            i + 1,
            program.push(Instruction::JmpForward(0)),
            open.push(program.len() as usize),
        );
    } else if s[i] as char == ']' {
        if open.len() > 0 {
            lemma_close_keeps_matched(program, open);
            lemma_parse_from_matched(
                s,
                i + 1,
                close_bracket(program, open.last()),
                open.drop_last(),
            );
        }
    } else {
        let c = s[i] as char;
        lemma_run_from_next_operator(s, i + 1, c);
        let p2 = program.push(counted(c, 1 + run_length(s, i + 1, c)));
        assert forall|n: int| 0 <= n < p2.len() implies match #[trigger] p2[n] {
            Instruction::JmpForward(t) => if t == 0 {
                open.contains(n as usize)
            } else {
                n + 1 < t <= p2.len() && p2[t - 1] == Instruction::JmpBack((n + 1) as usize)
            },
            Instruction::JmpBack(t) => 0 < t <= n && p2[t - 1] == Instruction::JmpForward(
                (n + 1) as usize,
            ),
            _ => true,
        } by {
            if n < program.len() {
                assert(p2[n] == program[n]);
            }
        }
        lemma_parse_from_matched(s, run_end(s, i + 1, c), p2, open);
    }
}

/// The brackets of every program that parsing yields are matched: each
/// opening bracket leads one past its closing bracket, which leads one past
/// the opening bracket.
pub proof fn lemma_parse_brackets_matched(s: Seq<u8>)
    requires
        s.len() <= usize::MAX,
    ensures
        match parse(s) {
            Ok(p) => brackets_matched(p),
            Err(_) => true,
        },
{
    lemma_parse_from_matched(s, 0, Seq::empty(), Seq::empty());
}

/// The number of bytes of `s` from index `i` on that hold the character `c`.
pub open spec fn occurrences_from(s: Seq<u8>, i: int, c: char) -> nat
    decreases s.len() - i,
{
    if i < 0 || i >= s.len() {
        0
    } else if s[i] as char == c {
        1 + occurrences_from(s, i + 1, c)
    } else {
        occurrences_from(s, i + 1, c)
    }
}

/// Where `c` is the only operator from index `i` on, the run of `c` from
/// there holds every `c` and ends with the source.
proof fn lemma_only_operator_run(s: Seq<u8>, i: int, c: char)
    requires
        0 <= i <= s.len(),
        is_operator_char(c),
        forall|j: int| i <= j < s.len() ==> !is_operator(#[trigger] s[j]) || s[j] as char == c,
    ensures
        run_length(s, i, c) == occurrences_from(s, i, c),
        run_end(s, i, c) == s.len(),
    decreases s.len() - i,
{
    if i < s.len() {
        lemma_only_operator_run(s, i + 1, c);
    }
}

/// From index `i` on, a source whose only operator is `c`, an operator
/// other than a bracket, parses to one instruction that counts every `c`.
proof fn lemma_coalescing_from(s: Seq<u8>, i: int, c: char)
    requires
        0 <= i <= s.len(),
        is_operator_char(c),
        c != '[',
        c != ']',
        forall|j: int| i <= j < s.len() ==> !is_operator(#[trigger] s[j]) || s[j] as char == c,
        occurrences_from(s, i, c) >= 1,
    ensures
        parse_from(s, i, Seq::empty(), Seq::empty()) == Ok::<Seq<Instruction>, ParseError>(
            seq![counted(c, occurrences_from(s, i, c))],
        ),
    decreases s.len() - i,
{
    if !is_operator(s[i]) {
        lemma_coalescing_from(s, i + 1, c);
    } else {
        lemma_only_operator_run(s, i + 1, c);
        let one = counted(c, 1 + run_length(s, i + 1, c));
        assert(Seq::<Instruction>::empty().push(one) =~= seq![one]);
        assert(parse_from(s, s.len() as int, seq![one], Seq::empty()) == Ok::<
            Seq<Instruction>,
            ParseError,
        >(seq![one]));
    }
}

/// Coalescing: a source that holds `m >= 1` times the operator `c`, which
/// is none of the brackets, and otherwise only bytes outside the alphabet,
/// parses to exactly one instruction: the one that `c` stands for, with the
/// count `m` (folded modulo 255 for `+` and `-`).
pub proof fn lemma_coalescing(s: Seq<u8>, c: char)
    requires
        is_operator_char(c),
        c != '[',
        c != ']',
        forall|j: int| 0 <= j < s.len() ==> !is_operator(#[trigger] s[j]) || s[j] as char == c,
        occurrences_from(s, 0, c) >= 1,
    ensures
        parse(s) == Ok::<Seq<Instruction>, ParseError>(
            seq![counted(c, occurrences_from(s, 0, c))],
        ),
{
    lemma_coalescing_from(s, 0, c);
}

/// Every count of `p` is in range: a counted instruction counts at least
/// one operator, and the folded count of `+` and `-` is at most 254.
pub open spec fn counts_in_range(p: Seq<Instruction>) -> bool {
    forall|i: int|
        0 <= i < p.len() ==> match #[trigger] p[i] {
            Instruction::AddrRight(n) => n >= 1,
            Instruction::AddrLeft(n) => n >= 1,
            Instruction::Output(n) => n >= 1,
            Instruction::Input(n) => n >= 1,
            Instruction::Inc(k) => k <= 254,
            Instruction::Dec(k) => k <= 254,
            _ => true,
        }
}

/// Parsing on from a program whose counts are in range yields a program
/// whose counts are in range.
proof fn lemma_parse_from_counts(s: Seq<u8>, i: int, program: Seq<Instruction>, open: Seq<usize>)
    requires
        0 <= i <= s.len() <= usize::MAX,
        counts_in_range(program),
        forall|j: int| 0 <= j < open.len() ==> #[trigger] open[j] < program.len(),
    ensures
        match parse_from(s, i, program, open) {
            Ok(p) => counts_in_range(p),
            Err(_) => true,
        },
    decreases s.len() - i,
{
    if i >= s.len() {
    } else if !is_operator(s[i]) {
        lemma_parse_from_counts(s, i + 1, program, open);
    } else if s[i] as char == '[' {
        let p2 = program.push(Instruction::JmpForward(0));
        assert forall|n: int| 0 <= n < program.len() implies p2[n] == program[n] by {}
        lemma_parse_from_counts(s, i + 1, p2, open.push(program.len() as usize));
    } else if s[i] as char == ']' {
        if open.len() > 0 {
            let p2 = close_bracket(program, open.last());
            assert forall|n: int| 0 <= n < program.len() && n != open.last() implies p2[n]
                == program[n] by {}
            lemma_parse_from_counts(s, i + 1, p2, open.drop_last());
        }
    } else {
        let c = s[i] as char;
        lemma_run_from_next_operator(s, i + 1, c);
        let p2 = program.push(counted(c, 1 + run_length(s, i + 1, c)));
        assert forall|n: int| 0 <= n < program.len() implies p2[n] == program[n] by {}
        lemma_parse_from_counts(s, run_end(s, i + 1, c), p2, open);
    }
}

/// The counts of every program that parsing yields are in range.
pub proof fn lemma_parse_counts_in_range(s: Seq<u8>)
    requires
        s.len() <= usize::MAX,
    ensures
        match parse(s) {
            Ok(p) => counts_in_range(p),
            Err(_) => true,
        },
{
    lemma_parse_from_counts(s, 0, Seq::empty(), Seq::empty());
}

/// The operator that `instruction` stands for.
pub open spec fn operator_of(instruction: Instruction) -> char {
    match instruction {
        Instruction::AddrRight(_) => '>',
        Instruction::AddrLeft(_) => '<',
        Instruction::Inc(_) => '+',
        Instruction::Dec(_) => '-',
        Instruction::Output(_) => '.',
        Instruction::Input(_) => ',',
        Instruction::JmpForward(_) => '[',
        Instruction::JmpBack(_) => ']',
    }
}

/// No two neighbours in `p` stand for the same operator, but for brackets:
/// every run was folded whole.
pub open spec fn runs_are_maximal(p: Seq<Instruction>) -> bool {
    forall|i: int|
        0 <= i < p.len() - 1 ==> {
            ||| operator_of(#[trigger] p[i]) == '['
            ||| operator_of(p[i]) == ']'
            ||| operator_of(p[i + 1]) != operator_of(p[i])
        }
}

/// Parsing on from a program whose runs are maximal, at an index where the
/// run of its last instruction has ended, yields a program whose runs are
/// maximal.
proof fn lemma_parse_from_maximal(s: Seq<u8>, i: int, program: Seq<Instruction>, open: Seq<usize>)
    requires
        0 <= i <= s.len() <= usize::MAX,
        program.len() <= i,
        runs_are_maximal(program),
        forall|j: int|
            0 <= j < open.len() ==> #[trigger] open[j] < program.len() && program[open[j] as int]
                is JmpForward,
        program.len() > 0 && next_operator(s, i) < s.len() ==> {
            ||| program.last() is JmpForward
            ||| program.last() is JmpBack
            ||| s[next_operator(s, i)] as char != operator_of(program.last())
        },
    ensures
        match parse_from(s, i, program, open) {
            Ok(p) => runs_are_maximal(p),
            Err(_) => true,
        },
    decreases s.len() - i,
{
    let len = program.len() as int;
    if i >= s.len() {
    } else if !is_operator(s[i]) {
        lemma_parse_from_maximal(s, i + 1, program, open);
    } else if s[i] as char == '[' {
        let p2 = program.push(Instruction::JmpForward(0));
        assert forall|n: int| 0 <= n < len implies p2[n] == program[n] by {}
        assert(p2.last() is JmpForward);
        lemma_parse_from_maximal(s, i + 1, p2, open.push(program.len() as usize));
    } else if s[i] as char == ']' {
        if open.len() > 0 {
            let p2 = close_bracket(program, open.last());
            assert forall|n: int| 0 <= n < len implies operator_of(p2[n]) == operator_of(
                program[n],
            ) by {}
            assert(p2.last() is JmpBack);
            assert forall|j: int| 0 <= j < open.drop_last().len() implies #[trigger] open.drop_last()[j]
                < p2.len() && p2[open.drop_last()[j] as int] is JmpForward by {
                assert(open.drop_last()[j] == open[j]);
            }
            lemma_parse_from_maximal(s, i + 1, p2, open.drop_last());
        }
    } else {
        let c = s[i] as char;
        lemma_run_from_next_operator(s, i + 1, c);
        lemma_run_end_differs(s, i + 1, c);
        let next = counted(c, 1 + run_length(s, i + 1, c));
        let p2 = program.push(next);
        assert(operator_of(next) == c);
        assert forall|n: int| 0 <= n < len implies p2[n] == program[n] by {}
        assert(p2.last() == next);
        lemma_parse_from_maximal(s, run_end(s, i + 1, c), p2, open);
    }
}

/// Coalescing is maximal: in every program that parsing yields, no two
/// neighbours stand for the same operator, but for brackets.
pub proof fn lemma_parse_runs_are_maximal(s: Seq<u8>)
    requires
        s.len() <= usize::MAX,
    ensures
        match parse(s) {
            Ok(p) => runs_are_maximal(p),
            Err(_) => true,
        },
{
    lemma_parse_from_maximal(s, 0, Seq::empty(), Seq::empty());
}

/// The state of a parse between two tokens.
pub struct Parser {
    /// The indices in `program` of the opening brackets that await their
    /// closing bracket, innermost last.
    pub forward_jumps: Vec<usize>,
    /// The instructions produced so far.
    pub program: Program,
}

impl Default for Parser {
    fn default() -> (parser: Self)
        ensures
            parser.forward_jumps@ == Seq::<usize>::empty(),
            parser.program@ == Seq::<Instruction>::empty(),
    {
        Parser { forward_jumps: Vec::new(), program: Vec::new() }
    }
}

impl Parser {
    /// Every open bracket is an instruction of the program.
    pub open spec fn wf(&self) -> bool {
        &&& self.program@.len() < usize::MAX
        &&& forall|j: int|
            0 <= j < self.forward_jumps@.len() ==> #[trigger] self.forward_jumps@[j]
                < self.program@.len()
    }

    /// Turns `token`, which was just taken from `lexer`, into the
    /// instruction to append to the program. For an operator other than a
    /// bracket it consumes the rest of the run from `lexer`; the count of the
    /// whole run has to be a machine word. For `[` it records the index that
    /// the instruction will have. For `]` it closes the innermost open
    /// bracket and gives it its target.
    pub fn parse_instruction(&mut self, lexer: &mut Lexer, token: &Token) -> (r: Result<
        Instruction,
        ParseError,
    >)
        requires
            old(self).wf(),
            old(lexer).wf(),
            is_operator_char(token.char),
            token.char != '[' && token.char != ']' ==> run_length(
                old(lexer).source(),
                old(lexer).cursor(),
                token.char,
            ) < usize::MAX,
        ensures
            final(lexer).wf(),
            final(lexer).source() == old(lexer).source(),
            token.char == '[' ==> {
                &&& r == Ok::<Instruction, ParseError>(Instruction::JmpForward(0))
                &&& final(self).program@ == old(self).program@
                &&& final(self).forward_jumps@ == old(self).forward_jumps@.push(
                    old(self).program@.len() as usize,
                )
                &&& final(lexer).cursor() == old(lexer).cursor()
            },
            token.char == ']' && old(self).forward_jumps@.len() == 0 ==> {
                &&& r == Err::<Instruction, ParseError>(
                    ParseError::UnmatchedClosingBracket(token.location),
                )
                &&& final(self).program@ == old(self).program@
                &&& final(self).forward_jumps@ == old(self).forward_jumps@
                &&& final(lexer).cursor() == old(lexer).cursor()
            },
            token.char == ']' && old(self).forward_jumps@.len() > 0 ==> {
                &&& r == Ok::<Instruction, ParseError>(
                    Instruction::JmpBack((old(self).forward_jumps@.last() + 1) as usize),
                )
                &&& final(self).program@ == old(self).program@.update(
                    old(self).forward_jumps@.last() as int,
                    Instruction::JmpForward((old(self).program@.len() + 1) as usize),
                )
                &&& final(self).forward_jumps@ == old(self).forward_jumps@.drop_last()
                &&& final(lexer).cursor() == old(lexer).cursor()
            },
            token.char != '[' && token.char != ']' ==> {
                &&& r == Ok::<Instruction, ParseError>(
                    counted(
                        token.char,
                        1 + run_length(old(lexer).source(), old(lexer).cursor(), token.char),
                    ),
                )
                &&& final(self).program@ == old(self).program@
                &&& final(self).forward_jumps@ == old(self).forward_jumps@
                &&& final(lexer).cursor() == run_end(
                    old(lexer).source(),
                    old(lexer).cursor(),
                    token.char,
                )
            },
    {
        proof {
            lexer.lemma_cursor_bounds();
            lemma_run_from_next_operator(lexer.source(), lexer.cursor(), token.char);
        }
        match token.char {
            '<' => Ok(Instruction::AddrLeft(1 + lexer.chop_while(token))),
            '>' => Ok(Instruction::AddrRight(1 + lexer.chop_while(token))),
            '+' => Ok(Instruction::Inc(((1 + lexer.chop_while(token)) % 255) as u8)),
            '-' => Ok(Instruction::Dec(((1 + lexer.chop_while(token)) % 255) as u8)),
            '.' => Ok(Instruction::Output(1 + lexer.chop_while(token))),
            ',' => Ok(Instruction::Input(1 + lexer.chop_while(token))),
            '[' => {
                self.forward_jumps.push(self.program.len());
                // The target is filled in once the matching `]` is met.
                Ok(Instruction::JmpForward(0))
            },
            _ => {
                match self.forward_jumps.pop() {
                    Some(target) => {
                        let after_closer = self.program.len() + 1;
                        self.program.set(target, Instruction::JmpForward(after_closer));
                        Ok(Instruction::JmpBack(target + 1))
                    },
                    None => Err(ParseError::UnmatchedClosingBracket(token.location)),
                }
            },
        }
    }

    /// Parses all that `lexer` still yields into a program.
    pub fn parse_program(&mut self, lexer: &mut Lexer) -> (r: Result<Program, ParseError>)
        requires
            old(lexer).wf(),
        ensures
            final(lexer).wf(),
            final(lexer).source() == old(lexer).source(),
            match parse_from(
                old(lexer).source(),
                old(lexer).cursor(),
                Seq::empty(),
                Seq::empty(),
            ) {
                Ok(p) => {
                    &&& r is Ok
                    &&& r.unwrap()@ == p
                    &&& brackets_matched(p)
                    &&& final(self).program@ == p
                    &&& final(self).forward_jumps@.len() == 0
                    &&& final(lexer).cursor() == old(lexer).source().len()
                },
                Err(e) => r == Err::<Program, ParseError>(e),
            },
    {
        self.program = Vec::new();
        self.forward_jumps = Vec::new();
        let ghost s = lexer.source();
        let ghost start = lexer.cursor();
        proof {
            lexer.lemma_cursor_bounds();
            lemma_parse_from_matched(s, start, Seq::empty(), Seq::empty());
        }
        loop
            invariant
                lexer.wf(),
                lexer.source() == s,
                s == old(lexer).source(),
                start == old(lexer).cursor(),
                forall|j: int|
                    0 <= j < self.forward_jumps@.len() ==> #[trigger] self.forward_jumps@[j]
                        < self.program@.len(),
                self.program@.len() <= lexer.cursor(),
                parse_from(s, lexer.cursor(), self.program@, self.forward_jumps@) == parse_from(
                    s,
                    start,
                    Seq::empty(),
                    Seq::empty(),
                ),
            ensures
                lexer.wf(),
                lexer.source() == s,
                lexer.cursor() == s.len(),
                parse_from(s, s.len() as int, self.program@, self.forward_jumps@) == parse_from(
                    s,
                    start,
                    Seq::empty(),
                    Seq::empty(),
                ),
            decreases s.len() - lexer.cursor(),
        {
            proof {
                lexer.lemma_cursor_bounds();
                lemma_next_operator(s, lexer.cursor());
                lemma_parse_from_next_operator(
                    s,
                    lexer.cursor(),
                    self.program@,
                    self.forward_jumps@,
                );
            }
            let ghost k = next_operator(s, lexer.cursor());
            match lexer.chop() {
                None => {
                    break ;
                },
                Some(token) => {
                    proof {
                        lemma_run_from_next_operator(s, k + 1, token.char);
                    }
                    match self.parse_instruction(lexer, &token) {
                        Ok(instruction) => {
                            self.program.push(instruction);
                        },
                        Err(e) => {
                            return Err(e);
                        },
                    }
                },
            }
        }
        if self.forward_jumps.len() != 0 {
            return Err(ParseError::UnmatchedOpeningBracket);
        }
        let program = self.program.clone();
        assert(program@ =~= self.program@);
        Ok(program)
    }
}

} // verus!

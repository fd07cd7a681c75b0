//! Where the code of each instruction stands in the machine code, and where
//! the two branches of each loop lead.

use crate::assembler::{je_encoding, jne_encoding, le32, patched, rel32};
use crate::jit::{
    closers_have_openers, code_fits, generate, machine_code, open_loops, repeated,
    test_cell_code, translate, write_code, Emitted, LoopSite, PLACEHOLDER_TARGET,
};
use crate::lexer::{is_operator, lemma_run_from_next_operator, run_end, run_length};
use crate::parser::{
    close_bracket, counted, lemma_close_keeps_matched,
    lemma_open_keeps_matched, lemma_parse_from_matched, parse, parse_from, partially_matched,
    same_bracket_kind, Instruction,
};
use vstd::prelude::*;

verus! {

/// The code offset at which the code of instruction `n` of `p` starts; for
/// `n` the length of `p`, the offset of the final `ret`.
pub open spec fn offset(p: Seq<Instruction>, n: int) -> int {
    generate(p, n).code.len() as int
}

/// The indices of the opening brackets whose loops are open after the first
/// `n` instructions of `p`, innermost last.
pub open spec fn open_indices(p: Seq<Instruction>, n: int) -> Seq<int>
    decreases n,
{
    if n <= 0 || n > p.len() {
        Seq::empty()
    } else {
        match p[n - 1] {
            Instruction::JmpForward(_) => open_indices(p, n - 1).push(n - 1),
            Instruction::JmpBack(_) => if open_indices(p, n - 1).len() > 0 {
                open_indices(p, n - 1).drop_last()
            } else {
                open_indices(p, n - 1)
            },
            _ => open_indices(p, n - 1),
        }
    }
}

/// The number of bytes from the start of a bracket's code to its branch.
pub open spec fn branch_at() -> int {
    11
}

/// The number of bytes of a bracket's code: the test and the branch.
pub open spec fn bracket_len() -> int {
    17
}

/// After `n` instructions the generator holds, for each open loop, the
/// offset of its opening bracket's code and the offset just behind that
/// code; the loops are listed from the outermost to the innermost.
pub open spec fn sites_track(p: Seq<Instruction>, n: int) -> bool {
    let g = generate(p, n);
    let idx = open_indices(p, n);
    &&& g.open.len() == idx.len()
    &&& forall|k: int|
        0 <= k < idx.len() ==> {
            &&& 0 <= (#[trigger] idx[k]) < n
            &&& p[idx[k]] is JmpForward
            &&& g.open[k].start == offset(p, idx[k])
            &&& g.open[k].exit_patch == offset(p, idx[k]) + bracket_len()
            &&& offset(p, idx[k]) + bracket_len() <= g.code.len()
        }
    &&& forall|k1: int, k2: int|
        0 <= k1 < k2 < idx.len() ==> {
            &&& (#[trigger] idx[k1]) < (#[trigger] idx[k2])
            &&& offset(p, idx[k1]) + bracket_len() <= offset(p, idx[k2])
        }
}

/// The test of a bracket takes eleven bytes and its branch six.
pub proof fn lemma_bracket_lengths(at: int, target: int)
    ensures
        test_cell_code().len() == branch_at(),
        je_encoding(at, target).len() == 6,
        jne_encoding(at, target).len() == 6,
        branch_at() + 6 == bracket_len(),
{
}

/// What translating an opening bracket does: it appends the test and a
/// forward branch, and notes where the code starts and where it ends.
pub proof fn lemma_open_shape(before: Emitted, target: usize)
    ensures
        ({
            let after = translate(before, Instruction::JmpForward(target));
            let at = before.code.len() as int;
            &&& after.code.len() == at + bracket_len()
            &&& after.open == before.open.push(
                LoopSite { start: at as usize, exit_patch: (at + bracket_len()) as usize },
            )
            &&& after.code.subrange(0, at) == before.code
            &&& after.code.subrange(at + branch_at(), at + bracket_len()) == je_encoding(
                at + branch_at(),
                PLACEHOLDER_TARGET as int,
            )
        }),
{
    let after = translate(before, Instruction::JmpForward(target));
    let at = before.code.len() as int;
    let tested = before.code + test_cell_code();
    lemma_bracket_lengths(tested.len() as int, PLACEHOLDER_TARGET as int);
    assert(after.code.subrange(0, at) =~= before.code);
    assert(after.code.subrange(at + branch_at(), at + bracket_len()) =~= je_encoding(
        at + branch_at(),
        PLACEHOLDER_TARGET as int,
    ));
}

/// What translating a closing bracket does while a loop is open: it appends
/// the test and a branch back to the start of the loop, and rewrites the
/// displacement of the loop's forward branch, and no other byte, so that
/// that branch leads behind the appended code.
pub proof fn lemma_close_shape(before: Emitted, target: usize)
    requires
        before.open.len() > 0,
        4 <= before.open.last().exit_patch <= before.code.len(),
    ensures
        ({
            let after = translate(before, Instruction::JmpBack(target));
            let at = before.code.len() as int;
            let site = before.open.last();
            &&& after.code.len() == at + bracket_len()
            &&& after.open == before.open.drop_last()
            &&& forall|b: int|
                0 <= b < at && !(site.exit_patch - 4 <= b < site.exit_patch)
                    ==> #[trigger] after.code[b] == before.code[b]
            &&& after.code.subrange(site.exit_patch - 4, site.exit_patch as int) == le32(
                rel32(at + bracket_len(), site.exit_patch as int),
            )
            &&& after.code.subrange(at + branch_at(), at + bracket_len()) == jne_encoding(
                at + branch_at(),
                site.start as int,
            )
        }),
{
    let after = translate(before, Instruction::JmpBack(target));
    let at = before.code.len() as int;
    let site = before.open.last();
    let tested = before.code + test_cell_code();
    lemma_bracket_lengths(tested.len() as int, site.start as int);
    let code = tested + jne_encoding(tested.len() as int, site.start as int);
    assert(after.code == patched(code, site.exit_patch as int, code.len() as int));
    assert(after.code.subrange(site.exit_patch - 4, site.exit_patch as int) =~= le32(
        rel32(at + bracket_len(), site.exit_patch as int),
    ));
    assert(after.code.subrange(at + branch_at(), at + bracket_len()) =~= jne_encoding(
        at + branch_at(),
        site.start as int,
    ));
}

/// What translating any other instruction does: it appends code.
pub proof fn lemma_plain_shape(before: Emitted, instruction: Instruction)
    requires
        !(instruction is JmpForward),
        !(instruction is JmpBack) || before.open.len() == 0,
    ensures
        ({
            let after = translate(before, instruction);
            &&& after.code.len() >= before.code.len()
            &&& after.open == before.open
            &&& after.code.subrange(0, before.code.len() as int) == before.code
        }),
{
    let after = translate(before, instruction);
    assert(after.code.subrange(0, before.code.len() as int) =~= before.code);
}

/// The generator keeps track of its open loops, and the code only grows: by
/// the length of a bracket's code with each bracket.
pub proof fn lemma_sites_track(p: Seq<Instruction>, n: int)
    requires
        code_fits(p),
        0 <= n <= p.len(),
    ensures
        sites_track(p, n),
        n > 0 ==> offset(p, n - 1) <= offset(p, n),
        n > 0 && (p[n - 1] is JmpForward || (p[n - 1] is JmpBack && open_indices(p, n - 1).len()
            > 0)) ==> offset(p, n) == offset(p, n - 1) + bracket_len(),
    decreases n,
{
    if n > 0 {
        lemma_sites_track(p, n - 1);
        let before = generate(p, n - 1);
        let after = generate(p, n);
        let idx = open_indices(p, n - 1);
        let idx2 = open_indices(p, n);
        assert(after.code.len() <= usize::MAX);
        assert(before.code.len() <= usize::MAX);
        match p[n - 1] {
            Instruction::JmpForward(target) => {
                lemma_open_shape(before, target);
                assert(idx2 == idx.push(n - 1));
                assert forall|k: int| 0 <= k < idx2.len() implies {
                    &&& 0 <= (#[trigger] idx2[k]) < n
                    &&& p[idx2[k]] is JmpForward
                    &&& after.open[k].start == offset(p, idx2[k])
                    &&& after.open[k].exit_patch == offset(p, idx2[k]) + bracket_len()
                    &&& offset(p, idx2[k]) + bracket_len() <= after.code.len()
                } by {
                    if k < idx.len() {
                        assert(idx2[k] == idx[k]);
                        assert(after.open[k] == before.open[k]);
                    }
                }
                assert forall|k1: int, k2: int| 0 <= k1 < k2 < idx2.len() implies {
                    &&& (#[trigger] idx2[k1]) < (#[trigger] idx2[k2])
                    &&& offset(p, idx2[k1]) + bracket_len() <= offset(p, idx2[k2])
                } by {
                    assert(idx2[k1] == idx[k1]);
                    if k2 < idx.len() {
                        assert(idx2[k2] == idx[k2]);
                    }
                }
            },
            Instruction::JmpBack(target) => {
                if idx.len() > 0 {
                    assert(idx[idx.len() - 1] == idx.last());
                    lemma_close_shape(before, target);
                    assert(idx2 == idx.drop_last());
                    assert forall|k: int| 0 <= k < idx2.len() implies {
                        &&& 0 <= (#[trigger] idx2[k]) < n
                        &&& p[idx2[k]] is JmpForward
                        &&& after.open[k].start == offset(p, idx2[k])
                        &&& after.open[k].exit_patch == offset(p, idx2[k]) + bracket_len()
                        &&& offset(p, idx2[k]) + bracket_len() <= after.code.len()
                    } by {
                        assert(idx2[k] == idx[k]);
                        assert(after.open[k] == before.open[k]);
                    }
                    assert forall|k1: int, k2: int| 0 <= k1 < k2 < idx2.len() implies {
                        &&& (#[trigger] idx2[k1]) < (#[trigger] idx2[k2])
                        &&& offset(p, idx2[k1]) + bracket_len() <= offset(p, idx2[k2])
                    } by {
                        assert(idx2[k1] == idx[k1]);
                        assert(idx2[k2] == idx[k2]);
                    }
                } else {
                    lemma_plain_shape(before, p[n - 1]);
                }
            },
            _ => {
                lemma_plain_shape(before, p[n - 1]);
            },
        }
    }
}

/// The number of bytes of the code of `instruction`.
pub open spec fn code_len(instruction: Instruction) -> int {
    match instruction {
        Instruction::AddrRight(_) => 13,
        Instruction::AddrLeft(_) => 13,
        Instruction::Inc(_) => 7,
        Instruction::Dec(_) => 7,
        Instruction::Output(n) => 36 * n,
        Instruction::Input(_) => 0,
        Instruction::JmpForward(_) => bracket_len(),
        Instruction::JmpBack(_) => bracket_len(),
    }
}

/// A block repeated `n` times is `n` times as long.
pub proof fn lemma_repeated_len(block: Seq<u8>, n: nat)
    ensures
        repeated(block, n).len() == n * block.len(),
    decreases n,
{
    let len = block.len() as int;
    if n > 0 {
        let m = (n - 1) as nat;
        lemma_repeated_len(block, m);
        assert(m * len + len == n * len) by (nonlinear_arith)
            requires
                m + 1 == n,
        ;
    } else {
        assert(n * len == 0) by (nonlinear_arith)
            requires
                n == 0,
        ;
    }
}

/// The code of an instruction starts where the code of the one before it
/// ends, and has the length of its kind.
pub proof fn lemma_code_len(p: Seq<Instruction>, n: int)
    requires
        code_fits(p),
        closers_have_openers(p),
        0 <= n < p.len(),
    ensures
        offset(p, n + 1) == offset(p, n) + code_len(p[n]),
{
    lemma_sites_track(p, n + 1);
    lemma_open_loops_counts_indices(p, n);
    let before = generate(p, n);
    assert(generate(p, n + 1) == translate(before, p[n]));
    match p[n] {
        Instruction::Output(count) => {
            lemma_repeated_len(write_code(), count as nat);
            assert(write_code().len() == 36);
        },
        _ => {},
    }
}

/// The code of a later instruction starts no earlier.
pub proof fn lemma_offset_monotone(p: Seq<Instruction>, a: int, b: int)
    requires
        code_fits(p),
        0 <= a <= b <= p.len(),
    ensures
        offset(p, a) <= offset(p, b),
    decreases b - a,
{
    if a < b {
        lemma_offset_monotone(p, a, b - 1);
        lemma_sites_track(p, b);
    }
}

/// Whether the code offset `b` lies in the displacement of the forward
/// branch of the opening bracket at index `i`.
pub open spec fn in_patch_slot(p: Seq<Instruction>, i: int, b: int) -> bool {
    offset(p, i) + bracket_len() - 4 <= b < offset(p, i) + bracket_len()
}

/// Whether the byte at code offset `b` has its final value after `n`
/// instructions: it has been emitted and is no displacement that awaits its
/// patch.
pub open spec fn settled(p: Seq<Instruction>, n: int, b: int) -> bool {
    &&& 0 <= b < offset(p, n)
    &&& forall|k: int|
        0 <= k < open_indices(p, n).len() ==> !in_patch_slot(p, #[trigger] open_indices(p, n)[k], b)
}

/// A settled byte keeps its value while the rest of the program is
/// translated.
pub proof fn lemma_settled_bytes_stay(p: Seq<Instruction>, n: int, m: int, b: int)
    requires
        code_fits(p),
        0 <= n <= m <= p.len(),
        settled(p, n, b),
    ensures
        generate(p, m).code[b] == generate(p, n).code[b],
        forall|k: int|
            0 <= k < open_indices(p, m).len() ==> (#[trigger] open_indices(p, m)[k]) >= n
                || open_indices(p, n).contains(open_indices(p, m)[k]),
    decreases m - n,
{
    if m > n {
        lemma_settled_bytes_stay(p, n, m - 1, b);
        lemma_sites_track(p, m - 1);
        lemma_sites_track(p, m);
        lemma_offset_monotone(p, n, m - 1);
        let before = generate(p, m - 1);
        let after = generate(p, m);
        let idx = open_indices(p, m - 1);
        let idx2 = open_indices(p, m);
        let at = before.code.len() as int;
        match p[m - 1] {
            Instruction::JmpForward(target) => {
                lemma_open_shape(before, target);
                assert(after.code.subrange(0, at)[b] == after.code[b]);
                assert(idx2 == idx.push(m - 1));
                assert forall|k: int| 0 <= k < idx2.len() implies (#[trigger] idx2[k]) >= n
                    || open_indices(p, n).contains(idx2[k]) by {
                    if k < idx.len() {
                        assert(idx2[k] == idx[k]);
                    }
                }
            },
            Instruction::JmpBack(target) => {
                if idx.len() > 0 {
                    let opener = idx[idx.len() - 1];
                    assert(opener == idx.last());
                    lemma_close_shape(before, target);
                    if opener >= n {
                        lemma_offset_monotone(p, n, opener);
                    } else {
                        let k = choose|k: int|
                            0 <= k < open_indices(p, n).len() && open_indices(p, n)[k] == opener;
                        assert(!in_patch_slot(p, open_indices(p, n)[k], b));
                    }
                    assert(idx2 == idx.drop_last());
                    assert forall|k: int| 0 <= k < idx2.len() implies (#[trigger] idx2[k]) >= n
                        || open_indices(p, n).contains(idx2[k]) by {
                        assert(idx2[k] == idx[k]);
                    }
                } else {
                    lemma_plain_shape(before, p[m - 1]);
                    assert(after.code.subrange(0, at)[b] == after.code[b]);
                }
            },
            _ => {
                lemma_plain_shape(before, p[m - 1]);
                assert(after.code.subrange(0, at)[b] == after.code[b]);
            },
        }
    }
}

/// Where the two branches of a loop lead. In the machine code of `p`, the
/// closing bracket at index `j` branches back to the first byte of the code
/// of the opening bracket of the innermost loop that is open there, and
/// that opening bracket branches forward to the code that follows the
/// closing bracket's.
pub proof fn lemma_loop_branches(p: Seq<Instruction>, j: int)
    requires
        code_fits(p),
        0 <= j < p.len(),
        p[j] is JmpBack,
        open_indices(p, j).len() > 0,
    ensures
        ({
            let i = open_indices(p, j).last();
            let code = machine_code(p);
            &&& 0 <= i < j
            &&& p[i] is JmpForward
            &&& offset(p, j + 1) < code.len()
            &&& code.subrange(offset(p, j) + branch_at(), offset(p, j) + bracket_len())
                == jne_encoding(offset(p, j) + branch_at(), offset(p, i))
            &&& code.subrange(offset(p, i) + branch_at(), offset(p, i) + bracket_len())
                == je_encoding(offset(p, i) + branch_at(), offset(p, j + 1))
        }),
{
    let len = p.len() as int;
    let idx = open_indices(p, j);
    let i = idx[idx.len() - 1];
    assert(i == idx.last());
    lemma_sites_track(p, j);
    lemma_sites_track(p, j + 1);
    lemma_sites_track(p, i);
    lemma_sites_track(p, i + 1);
    lemma_offset_monotone(p, j + 1, len);
    let before = generate(p, j);
    let after = generate(p, j + 1);
    let fin = generate(p, len).code;
    let code = machine_code(p);
    let at = offset(p, j);
    let from = offset(p, i);
    let site = before.open.last();
    assert(site == before.open[idx.len() - 1]);
    let target = p[j]->JmpBack_0;
    lemma_close_shape(before, target);
    let opened = generate(p, i + 1);
    lemma_open_shape(generate(p, i), p[i]->JmpForward_0);
    let idx2 = open_indices(p, j + 1);
    assert(idx2 == idx.drop_last());
    let jne = jne_encoding(at + branch_at(), from);
    let je = je_encoding(from + branch_at(), at + bracket_len());
    let placeholder = je_encoding(from + branch_at(), PLACEHOLDER_TARGET as int);
    lemma_bracket_lengths(at + branch_at(), from);
    lemma_bracket_lengths(from + branch_at(), at + bracket_len());

    assert forall|b: int| at + branch_at() <= b < at + bracket_len() implies code[b] == jne[b - (at
        + branch_at())] by {
        assert forall|k: int| 0 <= k < idx2.len() implies !in_patch_slot(
            p,
            #[trigger] idx2[k],
            b,
        ) by {
            assert(idx2[k] == idx[k]);
        }
        lemma_settled_bytes_stay(p, j + 1, len, b);
        assert(after.code.subrange(at + branch_at(), at + bracket_len())[b - (at + branch_at())]
            == after.code[b]);
    }
    assert(code.subrange(at + branch_at(), at + bracket_len()) =~= jne);

    assert forall|b: int| from + branch_at() <= b < from + bracket_len() implies code[b] == je[b
        - (from + branch_at())] by {
        if b < from + bracket_len() - 4 {
            let idx3 = open_indices(p, i + 1);
            let idx0 = open_indices(p, i);
            assert(idx3 == idx0.push(i));
            assert forall|k: int| 0 <= k < idx3.len() implies !in_patch_slot(
                p,
                #[trigger] idx3[k],
                b,
            ) by {
                if k < idx0.len() {
                    assert(idx3[k] == idx0[k]);
                }
            }
            lemma_settled_bytes_stay(p, i + 1, len, b);
            assert(opened.code.subrange(from + branch_at(), from + bracket_len())[b - (from
                + branch_at())] == opened.code[b]);
            assert(placeholder[b - (from + branch_at())] == je[b - (from + branch_at())]);
        } else {
            assert forall|k: int| 0 <= k < idx2.len() implies !in_patch_slot(
                p,
                #[trigger] idx2[k],
                b,
            ) by {
                assert(idx2[k] == idx[k]);
            }
            lemma_settled_bytes_stay(p, j + 1, len, b);
            let slot = after.code.subrange(site.exit_patch - 4, site.exit_patch as int);
            assert(slot[b - (site.exit_patch - 4)] == after.code[b]);
        }
    }
    assert(code.subrange(from + branch_at(), from + bracket_len()) =~= je);
}

/// Which loops are open after `n` instructions depends only on which of
/// those instructions are brackets.
pub proof fn lemma_open_indices_by_kind(p: Seq<Instruction>, q: Seq<Instruction>, n: int)
    requires
        0 <= n <= p.len(),
        n <= q.len(),
        forall|i: int| 0 <= i < n ==> same_bracket_kind(#[trigger] p[i], q[i]),
    ensures
        open_indices(p, n) == open_indices(q, n),
    decreases n,
{
    if n > 0 {
        lemma_open_indices_by_kind(p, q, n - 1);
        assert(same_bracket_kind(p[n - 1], q[n - 1]));
    }
}

/// Every closing bracket of `p` has a loop to close, and its target is the
/// instruction after the opening bracket of the innermost loop that is open
/// where it stands.
pub open spec fn closers_target_innermost(p: Seq<Instruction>) -> bool {
    forall|j: int|
        0 <= j < p.len() && (#[trigger] p[j]) is JmpBack ==> open_indices(p, j).len() > 0 && p[j]
            == Instruction::JmpBack((open_indices(p, j).last() + 1) as usize)
}

/// Whether the indices `open` are the loops that are open at the end of
/// `p`.
pub open spec fn lists_open_loops(p: Seq<Instruction>, open: Seq<usize>) -> bool {
    &&& open_indices(p, p.len() as int).len() == open.len()
    &&& forall|k: int| 0 <= k < open.len() ==> open_indices(p, p.len() as int)[k] == #[trigger] open[k]
}

/// Appending `next` to `q`, which is `p` but for the targets of its opening
/// brackets, keeps every closing bracket aimed at the innermost open loop.
proof fn lemma_append_keeps_targets(p: Seq<Instruction>, q: Seq<Instruction>, next: Instruction)
    requires
        closers_target_innermost(p),
        q.len() == p.len(),
        forall|i: int| 0 <= i < p.len() ==> same_bracket_kind(#[trigger] p[i], q[i]),
        forall|i: int| 0 <= i < p.len() && (#[trigger] p[i]) is JmpBack ==> q[i] == p[i],
        next is JmpBack ==> open_indices(p, p.len() as int).len() > 0 && next
            == Instruction::JmpBack((open_indices(p, p.len() as int).last() + 1) as usize),
    ensures
        closers_target_innermost(q.push(next)),
        open_indices(q.push(next), q.len() as int + 1) == match next {
            Instruction::JmpForward(_) => open_indices(p, p.len() as int).push(p.len() as int),
            Instruction::JmpBack(_) => open_indices(p, p.len() as int).drop_last(),
            _ => open_indices(p, p.len() as int),
        },
{
    let r = q.push(next);
    assert forall|n: int| 0 <= n <= p.len() implies open_indices(r, n) == open_indices(p, n) by {
        assert forall|i: int| 0 <= i < n implies same_bracket_kind(#[trigger] p[i], r[i]) by {
            assert(r[i] == q[i]);
        }
        lemma_open_indices_by_kind(p, r, n);
    }
    assert forall|j: int| 0 <= j < r.len() && (#[trigger] r[j]) is JmpBack implies open_indices(
        r,
        j,
    ).len() > 0 && r[j] == Instruction::JmpBack((open_indices(r, j).last() + 1) as usize) by {
        if j < p.len() {
            assert(r[j] == q[j]);
            assert(same_bracket_kind(p[j], q[j]));
        }
    }
    assert(r[q.len() as int] == next);
}

/// Parsing on from a state in which every closing bracket is aimed at the
/// innermost loop open where it stands yields a program of which the same
/// holds.
proof fn lemma_parse_from_targets(s: Seq<u8>, i: int, program: Seq<Instruction>, open: Seq<usize>)
    requires
        0 <= i <= s.len() <= usize::MAX,
        program.len() <= i,
        partially_matched(program, open),
        closers_target_innermost(program),
        lists_open_loops(program, open),
    ensures
        match parse_from(s, i, program, open) {
            Ok(p) => closers_target_innermost(p) && open_indices(p, p.len() as int).len() == 0,
            Err(_) => true,
        },
    decreases s.len() - i,
{
    let idx = open_indices(program, program.len() as int);
    if i >= s.len() {
    } else if !is_operator(s[i]) {
        lemma_parse_from_targets(s, i + 1, program, open);
    } else if s[i] as char == '[' {
        let next = Instruction::JmpForward(0);
        lemma_open_keeps_matched(program, open);
        lemma_append_keeps_targets(program, program, next);
        lemma_parse_from_targets(s, i + 1, program.push(next), open.push(program.len() as usize));
    } else if s[i] as char == ']' {
        if open.len() > 0 {
            let opener = open.last();
            assert(opener == open[open.len() - 1]);
            assert(idx.last() == idx[idx.len() - 1]);
            let retargeted = program.update(
                opener as int,
                Instruction::JmpForward((program.len() + 1) as usize),
            );
            let next = Instruction::JmpBack((opener + 1) as usize);
            assert(program[opener as int] == Instruction::JmpForward(0));
            lemma_close_keeps_matched(program, open);
            lemma_append_keeps_targets(program, retargeted, next);
            lemma_parse_from_targets(s, i + 1, close_bracket(program, opener), open.drop_last());
        }
    } else {
        let c = s[i] as char;
        lemma_run_from_next_operator(s, i + 1, c);
        let next = counted(c, 1 + run_length(s, i + 1, c));
        lemma_append_keeps_targets(program, program, next);
        assert(partially_matched(program.push(next), open)) by {
            assert forall|n: int| 0 <= n < program.len() implies program.push(next)[n]
                == program[n] by {}
        }
        lemma_parse_from_targets(s, run_end(s, i + 1, c), program.push(next), open);
    }
}

/// In every program that parsing yields, each closing bracket has a loop to
/// close and is aimed at the innermost loop open where it stands, and at the
/// end no loop is open.
pub proof fn lemma_parsed_closers_target_innermost(s: Seq<u8>)
    requires
        s.len() <= usize::MAX,
    ensures
        match parse(s) {
            Ok(p) => closers_target_innermost(p) && open_indices(p, p.len() as int).len() == 0,
            Err(_) => true,
        },
{
    lemma_parse_from_targets(s, 0, Seq::empty(), Seq::empty());
}

/// The loops that are open are as many as were counted.
pub proof fn lemma_open_loops_counts_indices(p: Seq<Instruction>, n: int)
    ensures
        open_loops(p, n) == open_indices(p, n).len(),
    decreases n,
{
    if 0 < n <= p.len() {
        lemma_open_loops_counts_indices(p, n - 1);
    }
}

/// In the machine code of a parsed program the branches follow the jump
/// targets. A closing bracket with the target `t` branches back to the
/// first byte of the code of instruction `t - 1`, its opening bracket. That
/// opening bracket branches forward to the code of its own target, the
/// instruction after the closing bracket.
pub proof fn lemma_branches_follow_targets(s: Seq<u8>, j: int)
    requires
        s.len() <= usize::MAX,
        parse(s) is Ok,
        code_fits(parse(s).unwrap()),
        0 <= j < parse(s).unwrap().len(),
        parse(s).unwrap()[j] is JmpBack,
    ensures
        ({
            let p = parse(s).unwrap();
            let code = machine_code(p);
            let i = p[j]->JmpBack_0 - 1;
            &&& 0 <= i < j
            &&& p[i] == Instruction::JmpForward((j + 1) as usize)
            &&& offset(p, j + 1) < code.len()
            &&& code.subrange(offset(p, j) + branch_at(), offset(p, j) + bracket_len())
                == jne_encoding(offset(p, j) + branch_at(), offset(p, i))
            &&& code.subrange(offset(p, i) + branch_at(), offset(p, i) + bracket_len())
                == je_encoding(offset(p, i) + branch_at(), offset(p, j + 1))
        }),
{
    let p = parse(s).unwrap();
    lemma_parse_from_matched(s, 0, Seq::empty(), Seq::empty());
    lemma_parsed_closers_target_innermost(s);
    lemma_loop_branches(p, j);
}

} // verus!

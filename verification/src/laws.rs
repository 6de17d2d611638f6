//! What holds of every program and every run.

use crate::errors::InterpreterError;
use crate::machine::{
    lemma_advanced_wf, lemma_entered_wf, lemma_run_split, lemma_run_wf, lemma_step_wf,
    lemma_stopped_stays, Machine, Store, TAPE_SIZE,
};
use crate::semantics::{perform_all, perform_loop, Outcome};
use crate::lexer::{lex, token_of, RawCode};
use crate::parser::{
    closing, diagnostics, diagnostics_range, leaf, lemma_closing_bounds,
    lemma_loop_body_is_balanced, parse, parse_range, Operation, ParseDiagnostic,
};
use vstd::prelude::*;

verus! {

/// No operation of the sequence is a loop.
pub open spec fn loop_free(ops: Seq<Operation>) -> bool {
    forall|i: int| 0 <= i < ops.len() ==> !(#[trigger] ops[i] is Loop)
}

/// A program without loops is done within as many steps as it has
/// operations left: by then the machine has finished, stopped on an error,
/// or waits for input. Until then every step performs the next operation in
/// order, so control never goes back.
pub proof fn lemma_straight_line_is_bounded(m: Machine)
    requires
        m.wf(),
        m.path.len() == 1,
        loop_free(m.program),
    ensures
        !m.run((m.program.len() - m.path[0]) as nat).running(),
        m.run((m.program.len() - m.path[0]) as nat).path.len() == 1,
        m.path[0] <= m.run((m.program.len() - m.path[0]) as nat).path[0] <= m.program.len(),
    decreases m.program.len() - m.path[0],
{
    let left = (m.program.len() - m.path[0]) as nat;
    if !m.running() {
        lemma_stopped_stays(m, left);
    } else {
        let next = m.step();
        lemma_step_wf(m);
        lemma_straight_line_is_bounded(next);
    }
}

/// Pointer moves are range-checked. A machine stops with `PointerOverflow`
/// exactly when the operation under control would move the pointer off the
/// tape at either end; it then stays as it is, so no later operation is
/// performed. In every run the pointer stays on the tape.
pub proof fn lemma_pointer_is_range_checked(m: Machine, steps: nat)
    requires
        m.wf(),
    ensures
        (m.status() matches Err(InterpreterError::PointerOverflow)) <==> !m.at_end() && (
        (m.current() is PtrIncrement && m.store.pointer == TAPE_SIZE - 1) || (m.current()
            is PtrDecrement && m.store.pointer == 0)),
        (m.status() matches Err(InterpreterError::PointerOverflow)) ==> m.run(steps) == m,
        0 <= m.run(steps).store.pointer < TAPE_SIZE,
{
    if (m.status() matches Err(InterpreterError::PointerOverflow)) {
        lemma_stopped_stays(m, steps);
    }
    lemma_run_wf(m, steps);
}

/// Cell arithmetic is range-checked. A machine stops with `MemoryOverflow`
/// exactly when the operation under control would raise a cell that holds
/// 255 or lower one that holds 0; it then stays as it is: the cell keeps its
/// value and no later operation is performed.
pub proof fn lemma_cell_is_range_checked(m: Machine, steps: nat)
    requires
        m.wf(),
    ensures
        (m.status() matches Err(InterpreterError::MemoryOverflow)) <==> !m.at_end() && (
        (m.current() is Increment && m.cell() == 255) || (m.current() is Decrement && m.cell()
            == 0)),
        (m.status() matches Err(InterpreterError::MemoryOverflow)) ==> m.run(steps) == m,
{
    if (m.status() matches Err(InterpreterError::MemoryOverflow)) {
        lemma_stopped_stays(m, steps);
    }
}

/// One round of a loop whose body is a single decrement, on a cell that is
/// not 0: three steps (enter, decrement, leave) lower the cell by one and
/// put control back on the loop.
pub proof fn lemma_clearing_round(m: Machine)
    requires
        m.wf(),
        !m.at_end(),
        m.current() == Operation::Loop(seq![Operation::Decrement]),
        m.cell() > 0,
    ensures
        m.run(3) == m.with_cell((m.cell() - 1) as u8),
{
    let inside = m.step();
    lemma_entered_wf(m);
    assert(inside == m.entered());
    let lowered = inside.step();
    lemma_advanced_wf(inside.with_cell((m.cell() - 1) as u8));
    assert(lowered == inside.with_cell((m.cell() - 1) as u8).advanced());
    let back = lowered.step();
    assert(back.path =~= m.path);
    assert(back == m.with_cell((m.cell() - 1) as u8));
    assert(m.run(3) == back) by {
        reveal_with_fuel(Machine::run, 4);
    }
}

/// The rounds of a clearing loop, one after another: after `rounds` rounds
/// of three steps the cell is lower by `rounds` and control is on the loop
/// again.
pub proof fn lemma_clearing_rounds(m: Machine, rounds: nat)
    requires
        m.wf(),
        !m.at_end(),
        m.current() == Operation::Loop(seq![Operation::Decrement]),
        rounds <= m.cell(),
    ensures
        m.run(3 * rounds) == m.with_cell((m.cell() - rounds) as u8),
    decreases rounds,
{
    if rounds == 0 {
        assert(m.with_cell(m.cell()).store.memory =~= m.store.memory);
    } else {
        lemma_clearing_rounds(m, (rounds - 1) as nat);
        let before = m.with_cell((m.cell() - (rounds - 1)) as u8);
        lemma_clearing_round(before);
        assert(before.with_cell((before.cell() - 1) as u8).store.memory =~= m.with_cell(
            (m.cell() - rounds) as u8,
        ).store.memory);
        lemma_run_split(m, (3 * (rounds - 1)) as nat, 3);
    }
}

/// A loop whose body is a single decrement clears its cell in exactly as
/// many rounds as the cell holds: after that many rounds the cell is 0, and
/// one more step passes over the loop without entering it. On a cell that is
/// 0 from the start that one step is all, and the body is never entered.
pub proof fn lemma_clearing_loop(m: Machine)
    requires
        m.wf(),
        !m.at_end(),
        m.current() == Operation::Loop(seq![Operation::Decrement]),
    ensures
        m.run(3 * (m.cell() as nat) + 1) == m.with_cell(0).advanced(),
{
    let value = m.cell() as nat;
    lemma_clearing_rounds(m, value);
    let cleared = m.with_cell(0);
    assert(cleared.run(1) == cleared.step()) by {
        reveal_with_fuel(Machine::run, 2);
    }
    lemma_run_split(m, 3 * value, 1);
}

/// A sequence without loops is performed in one step for each operation,
/// whatever the allowance of rounds: complete, it has taken as many steps as
/// it has operations; stopped, it has taken one for each operation before
/// the one that stopped it.
pub proof fn lemma_straight_line_takes_a_step_each(ops: Seq<Operation>, store: Store, rounds: nat)
    requires
        loop_free(ops),
    ensures
        match perform_all(ops, store, rounds) {
            Outcome::Completed { store: _, steps } => steps == ops.len(),
            Outcome::Stopped { store: met, why, steps } => {
                &&& steps < ops.len()
                &&& why == met.verdict(ops[steps as int])
                &&& !met.allows(ops[steps as int])
            },
            Outcome::Unfinished { .. } => false,
        },
    decreases ops.len(),
{
    if ops.len() > 0 {
        if store.allows(ops[0]) {
            let rest = ops.drop_first();
            assert forall|i: int| 0 <= i < rest.len() implies !(#[trigger] rest[i] is Loop) by {
                assert(rest[i] == ops[i + 1]);
            }
            lemma_straight_line_takes_a_step_each(rest, store.effect(ops[0]), rounds);
        }
    }
}

/// The token of a leaf operation.
pub open spec fn token(op: Operation) -> RawCode {
    match op {
        Operation::PtrIncrement => RawCode::PtrIncrement,
        Operation::PtrDecrement => RawCode::PtrDecrement,
        Operation::Increment => RawCode::Increment,
        Operation::Decrement => RawCode::Decrement,
        Operation::Write => RawCode::Write,
        _ => RawCode::Read,
    }
}

/// The tokens that one operation is written as: a loop is its body between
/// a `LoopBegin` and a `LoopEnd`.
pub open spec fn render_op(op: Operation) -> Seq<RawCode>
    decreases op,
{
    match op {
        Operation::Loop(body) => seq![RawCode::LoopBegin] + render(body) + seq![RawCode::LoopEnd],
        _ => seq![token(op)],
    }
}

/// The tokens that a sequence of operations is written as.
pub open spec fn render(ops: Seq<Operation>) -> Seq<RawCode>
    decreases ops,
{
    if ops.len() == 0 {
        Seq::empty()
    } else {
        render_op(ops[0]) + render(ops.drop_first())
    }
}

/// `tokens` holds `part` from index `at` on.
pub open spec fn holds_at(tokens: Seq<RawCode>, at: int, part: Seq<RawCode>) -> bool {
    &&& 0 <= at
    &&& at + part.len() <= tokens.len()
    &&& tokens.subrange(at, at + part.len()) == part
}

/// Where two parts joined are held, each is held at its place.
proof fn lemma_holds_parts(tokens: Seq<RawCode>, at: int, first: Seq<RawCode>, second: Seq<RawCode>)
    requires
        holds_at(tokens, at, first + second),
    ensures
        holds_at(tokens, at, first),
        holds_at(tokens, at + first.len(), second),
{
    let whole = first + second;
    assert(tokens.subrange(at, at + first.len()) =~= first) by {
        assert forall|i: int| 0 <= i < first.len() implies tokens.subrange(at, at + first.len())[i]
            == first[i] by {
            assert(tokens.subrange(at, at + whole.len())[i] == whole[i]);
        }
    }
    assert(tokens.subrange(at + first.len(), at + first.len() + second.len()) =~= second) by {
        assert forall|i: int| 0 <= i < second.len() implies tokens.subrange(
            at + first.len(),
            at + first.len() + second.len(),
        )[i] == second[i] by {
            assert(tokens.subrange(at, at + whole.len())[first.len() + i] == whole[first.len()
                + i]);
        }
    }
}

/// Where a single token is held, it is the token at that index.
proof fn lemma_holds_one(tokens: Seq<RawCode>, at: int, one: RawCode)
    requires
        holds_at(tokens, at, seq![one]),
    ensures
        tokens[at] == one,
{
    assert(tokens.subrange(at, at + 1)[0] == one);
}

/// A scan for the closing `LoopEnd` passes over written operations: they
/// close every loop that they open.
proof fn lemma_closing_skips(
    tokens: Seq<RawCode>,
    at: int,
    end: int,
    depth: nat,
    ops: Seq<Operation>,
)
    requires
        holds_at(tokens, at, render(ops)),
        at + render(ops).len() <= end,
        depth >= 1,
    ensures
        closing(tokens, at, end, depth) == closing(tokens, at + render(ops).len(), end, depth),
    decreases ops,
{
    if ops.len() > 0 {
        let first = render_op(ops[0]);
        let rest = render(ops.drop_first());
        lemma_holds_parts(tokens, at, first, rest);
        lemma_closing_skips_op(tokens, at, end, depth, ops[0]);
        lemma_closing_skips(tokens, at + first.len(), end, depth, ops.drop_first());
    }
}

/// The same of one written operation.
proof fn lemma_closing_skips_op(tokens: Seq<RawCode>, at: int, end: int, depth: nat, op: Operation)
    requires
        holds_at(tokens, at, render_op(op)),
        at + render_op(op).len() <= end,
        depth >= 1,
    ensures
        closing(tokens, at, end, depth) == closing(tokens, at + render_op(op).len(), end, depth),
    decreases op,
{
    match op {
        Operation::Loop(body) => {
            let inside = render(body);
            lemma_holds_parts(
                tokens,
                at,
                seq![RawCode::LoopBegin] + inside,
                seq![RawCode::LoopEnd],
            );
            lemma_holds_parts(tokens, at, seq![RawCode::LoopBegin], inside);
            lemma_holds_one(tokens, at, RawCode::LoopBegin);
            lemma_holds_one(tokens, at + 1 + inside.len(), RawCode::LoopEnd);
            lemma_closing_skips(tokens, at + 1, end, depth + 1, body);
        },
        _ => {
            lemma_holds_one(tokens, at, token(op));
        },
    }
}

/// Where `tokens` holds written operations from `at` on, parsing from `at`
/// gives these operations back, then what the tokens behind them parse
/// into; and the written operations add no fault.
pub proof fn lemma_parse_written(tokens: Seq<RawCode>, at: int, end: int, ops: Seq<Operation>)
    requires
        holds_at(tokens, at, render(ops)),
        at + render(ops).len() <= end <= tokens.len(),
    ensures
        parse_range(tokens, at, end) == ops + parse_range(tokens, at + render(ops).len(), end),
        diagnostics_range(tokens, at, end) == diagnostics_range(
            tokens,
            at + render(ops).len(),
            end,
        ),
    decreases ops,
{
    if ops.len() > 0 {
        let first = render_op(ops[0]);
        let rest = render(ops.drop_first());
        lemma_holds_parts(tokens, at, first, rest);
        lemma_parse_written_op(tokens, at, end, ops[0]);
        lemma_parse_written(tokens, at + first.len(), end, ops.drop_first());
    }
}

/// The same of one written operation.
proof fn lemma_parse_written_op(tokens: Seq<RawCode>, at: int, end: int, op: Operation)
    requires
        holds_at(tokens, at, render_op(op)),
        at + render_op(op).len() <= end <= tokens.len(),
    ensures
        parse_range(tokens, at, end) == seq![op] + parse_range(
            tokens,
            at + render_op(op).len(),
            end,
        ),
        diagnostics_range(tokens, at, end) == diagnostics_range(
            tokens,
            at + render_op(op).len(),
            end,
        ),
    decreases op,
{
    match op {
        Operation::Loop(body) => {
            let inside = render(body);
            let close = at + 1 + inside.len();
            lemma_holds_parts(
                tokens,
                at,
                seq![RawCode::LoopBegin] + inside,
                seq![RawCode::LoopEnd],
            );
            lemma_holds_parts(tokens, at, seq![RawCode::LoopBegin], inside);
            lemma_holds_one(tokens, at, RawCode::LoopBegin);
            lemma_holds_one(tokens, close, RawCode::LoopEnd);
            lemma_closing_skips(tokens, at + 1, end, 1, body);
            lemma_parse_written(tokens, at + 1, close, body);
        },
        _ => {
            lemma_holds_one(tokens, at, token(op));
        },
    }
}

/// Parsing undoes writing, at any depth of nesting: the tokens that a tree
/// of operations is written as parse into that tree, loop for loop and leaf
/// for leaf, without a fault.
pub proof fn lemma_parse_inverts_render(ops: Seq<Operation>)
    ensures
        parse(render(ops)) == ops,
        diagnostics(render(ops)) == Seq::<ParseDiagnostic>::empty(),
{
    let tokens = render(ops);
    assert(tokens.subrange(0, tokens.len() as int) =~= tokens);
    lemma_parse_written(tokens, 0, tokens.len() as int, ops);
}

/// Writing a loop in front of operations writes the loop, then them.
proof fn lemma_render_cons(first: Operation, rest: Seq<Operation>)
    ensures
        render(seq![first] + rest) == render_op(first) + render(rest),
{
    let ops = seq![first] + rest;
    assert(ops.drop_first() =~= rest);
}

/// Writing undoes parsing where the tokens have no structural fault: the
/// operations that `tokens[from..end)` parse into are written as just these
/// tokens, so the tree holds every token of the range, each loop the tokens
/// between its brackets, and nothing else.
pub proof fn lemma_render_parsed_range(tokens: Seq<RawCode>, from: int, end: int)
    requires
        0 <= from <= end <= tokens.len(),
        diagnostics_range(tokens, from, end) == Seq::<ParseDiagnostic>::empty(),
    ensures
        render(parse_range(tokens, from, end)) == tokens.subrange(from, end),
    decreases end - from,
{
    if from < end && tokens[from] == RawCode::LoopBegin {
        let close = closing(tokens, from + 1, end, 1);
        lemma_closing_bounds(tokens, from + 1, end, 1);
        assert(close < end) by {
            if close >= end {
                assert(diagnostics_range(tokens, from, end).len() == 1);
            }
        }
        lemma_loop_body_is_balanced(tokens, from + 1, end);
        lemma_render_parsed_range(tokens, from + 1, close);
        lemma_render_parsed_range(tokens, close + 1, end);
        let body = parse_range(tokens, from + 1, close);
        let rest = parse_range(tokens, close + 1, end);
        lemma_render_cons(Operation::Loop(body), rest);
    } else if from < end && tokens[from] != RawCode::LoopEnd {
        lemma_render_parsed_range(tokens, from + 1, end);
        let rest = parse_range(tokens, from + 1, end);
        lemma_render_cons(leaf(tokens[from]), rest);
    }
}

/// Writing undoes parsing: a token sequence without structural fault is
/// what its operations are written as.
pub proof fn lemma_render_inverts_parse(tokens: Seq<RawCode>)
    requires
        diagnostics(tokens) == Seq::<ParseDiagnostic>::empty(),
    ensures
        render(parse(tokens)) == tokens,
{
    lemma_render_parsed_range(tokens, 0, tokens.len() as int);
}

/// Lexing goes character by character: the tokens of two texts joined are
/// the tokens of the first, then those of the second.
pub proof fn lemma_lex_concat(first: Seq<char>, second: Seq<char>)
    ensures
        lex(first + second) == lex(first) + lex(second),
    decreases second.len(),
{
    if second.len() > 0 {
        assert((first + second).drop_last() =~= first + second.drop_last());
        lemma_lex_concat(first, second.drop_last());
    }
}

/// A character that is no instruction is ignored wherever it stands: the
/// text lexes as it does without it.
pub proof fn lemma_lex_ignores_other_characters(before: Seq<char>, other: char, behind: Seq<char>)
    requires
        token_of(other) is None,
    ensures
        lex(before.push(other) + behind) == lex(before + behind),
{
    lemma_lex_concat(before.push(other), behind);
    lemma_lex_concat(before, behind);
    assert(before.push(other).drop_last() =~= before);
}

/// A clearing loop takes exactly as many rounds as its cell holds. With an
/// allowance of at least that many rounds, performing a loop whose body is
/// a single decrement completes with the cell at 0, after three steps for
/// each round and one for the last test; with a smaller allowance it does
/// not finish.
pub proof fn lemma_clearing_loop_rounds(store: Store, rounds: nat)
    requires
        store.wf(),
    ensures
        rounds >= store.cell() ==> perform_loop(seq![Operation::Decrement], store, rounds)
            == (Outcome::Completed {
            store: store.with_cell(0),
            steps: 3 * (store.cell() as nat) + 1,
        }),
        rounds < store.cell() ==> perform_loop(seq![Operation::Decrement], store, rounds)
            is Unfinished,
    decreases rounds,
{
    let body = seq![Operation::Decrement];
    if store.cell() == 0 {
        assert(store.with_cell(0).memory =~= store.memory);
    } else if rounds > 0 {
        let lowered = store.effect(Operation::Decrement);
        assert(perform_all(body, store, (rounds - 1) as nat) == Outcome::Completed {
            store: lowered,
            steps: 1,
        }) by {
            reveal_with_fuel(perform_all, 2);
        }
        lemma_clearing_loop_rounds(lowered, (rounds - 1) as nat);
        assert(lowered.with_cell(0).memory =~= store.with_cell(0).memory);
    }
}

} // verus!

//! Structural parsing of tokens into a tree of operations.

use crate::computer::Computer;
use crate::lexer::RawCode;
use vstd::prelude::*;

verus! {

/// An executable operation. A loop owns the operations of its body.
#[derive(Debug, PartialEq, Eq)]
pub enum OpCode {
    PtrIncrement,
    PtrDecrement,
    Increment,
    Decrement,
    Write,
    Read,
    Loop(Vec<OpCode>),
}

/// The mathematical model of an operation.
pub enum Operation {
    PtrIncrement,
    PtrDecrement,
    Increment,
    Decrement,
    Write,
    Read,
    Loop(Seq<Operation>),
}

impl OpCode {
    /// The operation that this value stands for.
    pub open spec fn model(self) -> Operation
        decreases self,
    {
        match self {
            OpCode::PtrIncrement => Operation::PtrIncrement,
            OpCode::PtrDecrement => Operation::PtrDecrement,
            OpCode::Increment => Operation::Increment,
            OpCode::Decrement => Operation::Decrement,
            OpCode::Write => Operation::Write,
            OpCode::Read => Operation::Read,
            OpCode::Loop(body) => Operation::Loop(
                Seq::new(
                    body@.len(),
                    |i: int|
                        if 0 <= i < body@.len() {
                            body@[i].model()
                        } else {
                            Operation::Read
                        },
                ),
            ),
        }
    }
}

impl View for OpCode {
    type V = Operation;

    open spec fn view(&self) -> Operation {
        self.model()
    }
}

/// The operations that a sequence of values stands for.
pub open spec fn model_of(ops: Seq<OpCode>) -> Seq<Operation> {
    Seq::new(ops.len(), |i: int| ops[i]@)
}

/// A structural fault found while parsing. Parsing goes on after either.
#[derive(Clone, Copy, Debug, PartialEq, Eq, Structural)]
pub enum ParseDiagnostic {
    /// The `LoopEnd` at this token index closes no loop.
    LoopEndWithoutStart(usize),
    /// The `LoopBegin` at this token index is never closed.
    LoopStartWithoutEnd(usize),
}

/// The leaf operation of a token that is no bracket.
pub open spec fn leaf(token: RawCode) -> Operation {
    match token {
        RawCode::PtrIncrement => Operation::PtrIncrement,
        RawCode::PtrDecrement => Operation::PtrDecrement,
        RawCode::Increment => Operation::Increment,
        RawCode::Decrement => Operation::Decrement,
        RawCode::Write => Operation::Write,
        _ => Operation::Read,
    }
}

/// Scanning `tokens[from..end)` with `depth` loops open, the index of the
/// `LoopEnd` that closes the outermost of them; `end` if there is none.
pub open spec fn closing(tokens: Seq<RawCode>, from: int, end: int, depth: nat) -> int
    decreases end - from,
{
    if from >= end {
        end
    } else if tokens[from] == RawCode::LoopBegin {
        closing(tokens, from + 1, end, depth + 1)
    } else if tokens[from] == RawCode::LoopEnd {
        if depth <= 1 {
            from
        } else {
            closing(tokens, from + 1, end, (depth - 1) as nat)
        }
    } else {
        closing(tokens, from + 1, end, depth)
    }
}

/// A scan ends in its range, and where it ends before `end` it ends on a
/// `LoopEnd`.
pub proof fn lemma_closing_bounds(tokens: Seq<RawCode>, from: int, end: int, depth: nat)
    requires
        from <= end,
    ensures
        from <= closing(tokens, from, end, depth) <= end,
        closing(tokens, from, end, depth) < end ==> tokens[closing(tokens, from, end, depth)]
            == RawCode::LoopEnd,
    decreases end - from,
{
    if from < end {
        if tokens[from] == RawCode::LoopBegin {
            lemma_closing_bounds(tokens, from + 1, end, depth + 1);
        } else if tokens[from] == RawCode::LoopEnd {
            if depth > 1 {
                lemma_closing_bounds(tokens, from + 1, end, (depth - 1) as nat);
            }
        } else {
            lemma_closing_bounds(tokens, from + 1, end, depth);
        }
    }
}

/// The operations that `tokens[from..end)` parse into.
///
/// A token that is no bracket becomes its leaf. A `LoopBegin` with its
/// closing `LoopEnd` becomes one loop whose body is what the tokens strictly
/// between them parse into. A `LoopEnd` that closes nothing is passed over.
/// A `LoopBegin` that is never closed ends the result: nothing after it is
/// kept.
pub open spec fn parse_range(tokens: Seq<RawCode>, from: int, end: int) -> Seq<Operation>
    decreases end - from,
{
    if from >= end {
        Seq::empty()
    } else if tokens[from] == RawCode::LoopBegin {
        let close = closing(tokens, from + 1, end, 1);
        proof {
            lemma_closing_bounds(tokens, from + 1, end, 1);
        }
        if close < end {
            seq![Operation::Loop(parse_range(tokens, from + 1, close))] + parse_range(
                tokens,
                close + 1,
                end,
            )
        } else {
            Seq::empty()
        }
    } else if tokens[from] == RawCode::LoopEnd {
        parse_range(tokens, from + 1, end)
    } else {
        seq![leaf(tokens[from])] + parse_range(tokens, from + 1, end)
    }
}

/// The structural faults of `tokens[from..end)`, in the order of their
/// positions.
pub open spec fn diagnostics_range(tokens: Seq<RawCode>, from: int, end: int) -> Seq<
    ParseDiagnostic,
>
    decreases end - from,
{
    if from >= end {
        Seq::empty()
    } else if tokens[from] == RawCode::LoopBegin {
        let close = closing(tokens, from + 1, end, 1);
        proof {
            lemma_closing_bounds(tokens, from + 1, end, 1);
        }
        if close < end {
            diagnostics_range(tokens, close + 1, end)
        } else {
            seq![ParseDiagnostic::LoopStartWithoutEnd(from as usize)]
        }
    } else if tokens[from] == RawCode::LoopEnd {
        seq![ParseDiagnostic::LoopEndWithoutStart(from as usize)] + diagnostics_range(
            tokens,
            from + 1,
            end,
        )
    } else {
        diagnostics_range(tokens, from + 1, end)
    }
}

/// The operations that a token sequence parses into.
pub open spec fn parse(tokens: Seq<RawCode>) -> Seq<Operation> {
    parse_range(tokens, 0, tokens.len() as int)
}

/// The structural faults of a token sequence.
pub open spec fn diagnostics(tokens: Seq<RawCode>) -> Seq<ParseDiagnostic> {
    diagnostics_range(tokens, 0, tokens.len() as int)
}

/// A scan that finds its `LoopEnd` before `nearer` finds the same one when it
/// is let go no further than `nearer`.
proof fn lemma_closing_nearer_end(
    tokens: Seq<RawCode>,
    from: int,
    end: int,
    nearer: int,
    depth: nat,
)
    requires
        from <= nearer <= end,
        closing(tokens, from, end, depth) < nearer,
    ensures
        closing(tokens, from, nearer, depth) == closing(tokens, from, end, depth),
    decreases end - from,
{
    lemma_closing_bounds(tokens, from, end, depth);
    if from < nearer {
        if tokens[from] == RawCode::LoopBegin {
            lemma_closing_nearer_end(tokens, from + 1, end, nearer, depth + 1);
        } else if tokens[from] == RawCode::LoopEnd {
            if depth > 1 {
                lemma_closing_nearer_end(tokens, from + 1, end, nearer, (depth - 1) as nat);
            }
        } else {
            lemma_closing_nearer_end(tokens, from + 1, end, nearer, depth);
        }
    }
}

/// With `inner + outer` loops open, the scan first meets the `LoopEnd` that
/// closes the `inner` ones, and from behind it goes on as a scan with
/// `outer` loops open.
proof fn lemma_closing_in_turn(tokens: Seq<RawCode>, from: int, end: int, inner: nat, outer: nat)
    requires
        from <= end,
        inner >= 1,
        outer >= 1,
        closing(tokens, from, end, inner + outer) < end,
    ensures
        closing(tokens, from, end, inner) < closing(tokens, from, end, inner + outer),
        closing(tokens, closing(tokens, from, end, inner) + 1, end, outer) == closing(
            tokens,
            from,
            end,
            inner + outer,
        ),
    decreases end - from,
{
    if from < end {
        if tokens[from] == RawCode::LoopBegin {
            lemma_closing_in_turn(tokens, from + 1, end, inner + 1, outer);
        } else if tokens[from] == RawCode::LoopEnd {
            if inner > 1 {
                lemma_closing_in_turn(tokens, from + 1, end, (inner - 1) as nat, outer);
            } else {
                lemma_closing_bounds(tokens, from + 1, end, outer);
            }
        } else {
            lemma_closing_in_turn(tokens, from + 1, end, inner, outer);
        }
    }
}

/// The inside of a loop is balanced: the tokens strictly between a
/// `LoopBegin` and the `LoopEnd` that closes it have no structural fault of
/// their own. `from` is the index behind the `LoopBegin`.
pub proof fn lemma_loop_body_is_balanced(tokens: Seq<RawCode>, from: int, end: int)
    requires
        from <= end,
        closing(tokens, from, end, 1) < end,
    ensures
        diagnostics_range(tokens, from, closing(tokens, from, end, 1)) == Seq::<
            ParseDiagnostic,
        >::empty(),
    decreases end - from,
{
    let close = closing(tokens, from, end, 1);
    lemma_closing_bounds(tokens, from, end, 1);
    if from < close {
        if tokens[from] == RawCode::LoopBegin {
            lemma_closing_in_turn(tokens, from + 1, end, 1, 1);
            let nested = closing(tokens, from + 1, end, 1);
            lemma_closing_bounds(tokens, from + 1, end, 1);
            lemma_closing_nearer_end(tokens, from + 1, end, close, 1);
            lemma_loop_body_is_balanced(tokens, nested + 1, end);
        } else if tokens[from] != RawCode::LoopEnd {
            lemma_loop_body_is_balanced(tokens, from + 1, end);
        }
    }
}

/// A loop value stands for the loop over what its body stands for.
pub proof fn lemma_loop_model(body: Vec<OpCode>)
    ensures
        OpCode::Loop(body)@ == Operation::Loop(model_of(body@)),
{
    assert(OpCode::Loop(body).model()->Loop_0 =~= model_of(body@));
}

/// Appending a value appends what it stands for.
pub proof fn lemma_model_push(ops: Seq<OpCode>, op: OpCode)
    ensures
        model_of(ops.push(op)) == model_of(ops).push(op@),
{
}

impl Computer {
    /// Parses a token sequence into operations, with loops as subtrees, and
    /// reports its structural faults beside them. Neither kind of fault
    /// stops the parse. The computer is left as it is.
    pub fn parser(&mut self, raw_codes: &Vec<RawCode>) -> (parsed: (
        Vec<OpCode>,
        Vec<ParseDiagnostic>,
    ))
        ensures
            model_of(parsed.0@) == parse(raw_codes@),
            parsed.1@ == diagnostics(raw_codes@),
            *final(self) == *old(self),
    {
        parse_tokens(raw_codes, 0, raw_codes.len())
    }
}

/// Parses `raw[from..end)` in one scan that counts open loops, and parses the
/// inside of each outermost loop by a call of itself.
fn parse_tokens(raw: &Vec<RawCode>, from: usize, end: usize) -> (parsed: (
    Vec<OpCode>,
    Vec<ParseDiagnostic>,
))
    requires
        from <= end <= raw.len(),
    ensures
        model_of(parsed.0@) == parse_range(raw@, from as int, end as int),
        parsed.1@ == diagnostics_range(raw@, from as int, end as int),
    decreases end - from,
{
    let mut op_codes: Vec<OpCode> = Vec::new();
    let mut faults: Vec<ParseDiagnostic> = Vec::new();
    let mut loop_start: usize = from;
    let mut loop_stack: usize = 0;
    let mut i: usize = from;
    while i < end
        invariant
            from <= i <= end <= raw.len(),
            loop_stack <= i - from,
            loop_stack == 0 ==> {
                &&& model_of(op_codes@) + parse_range(raw@, i as int, end as int) == parse_range(
                    raw@,
                    from as int,
                    end as int,
                )
                &&& faults@ + diagnostics_range(raw@, i as int, end as int) == diagnostics_range(
                    raw@,
                    from as int,
                    end as int,
                )
            },
            loop_stack > 0 ==> {
                &&& from <= loop_start < i
                &&& raw@[loop_start as int] == RawCode::LoopBegin
                &&& closing(raw@, loop_start + 1, end as int, 1) == closing(
                    raw@,
                    i as int,
                    end as int,
                    loop_stack as nat,
                )
                &&& model_of(op_codes@) + parse_range(raw@, loop_start as int, end as int)
                    == parse_range(raw@, from as int, end as int)
                &&& faults@ + diagnostics_range(raw@, loop_start as int, end as int)
                    == diagnostics_range(raw@, from as int, end as int)
            },
        decreases end - i,
    {
        let token: RawCode = raw[i];
        if loop_stack == 0 {
            match token {
                RawCode::LoopBegin => {
                    loop_start = i;
                    loop_stack = 1;
                },
                RawCode::LoopEnd => {
                    faults.push(ParseDiagnostic::LoopEndWithoutStart(i));
                },
                _ => {
                    let op_code = match token {
                        RawCode::PtrIncrement => OpCode::PtrIncrement,
                        RawCode::PtrDecrement => OpCode::PtrDecrement,
                        RawCode::Increment => OpCode::Increment,
                        RawCode::Decrement => OpCode::Decrement,
                        RawCode::Write => OpCode::Write,
                        _ => OpCode::Read,
                    };
                    proof {
                        lemma_model_push(op_codes@, op_code);
                    }
                    op_codes.push(op_code);
                },
            }
        } else {
            match token {
                RawCode::LoopBegin => {
                    loop_stack = loop_stack + 1;
                },
                RawCode::LoopEnd => {
                    loop_stack = loop_stack - 1;
                    if loop_stack == 0 {
                        let inner = parse_tokens(raw, loop_start + 1, i);
                        let body = inner.0;
                        let op_code = OpCode::Loop(body);
                        proof {
                            lemma_loop_body_is_balanced(raw@, loop_start + 1, end as int);
                            assert(inner.1@.len() == 0);
                            lemma_loop_model(body);
                            lemma_model_push(op_codes@, op_code);
                        }
                        op_codes.push(op_code);
                    }
                },
                _ => {},
            }
        }
        i = i + 1;
    }
    if loop_stack != 0 {
        faults.push(ParseDiagnostic::LoopStartWithoutEnd(loop_start));
    }
    (op_codes, faults)
}

} // verus!

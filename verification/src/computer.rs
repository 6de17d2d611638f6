//! The executable interpreter.

use crate::errors::InterpreterError;
use crate::machine::{
    frame, lemma_advanced_wf, lemma_entered_wf, lemma_left_wf, lemma_run_split,
    lemma_run_then_step, lemma_stopped_stays, valid_path, Machine, Status, Store, TAPE_SIZE,
};
use crate::lexer::lex;
use crate::parser::{
    diagnostics, lemma_loop_model, model_of, parse, OpCode, Operation, ParseDiagnostic,
};
use crate::semantics::{ends_with, lemma_ended_run_is_descent, perform_all};
use std::collections::VecDeque;
use vstd::prelude::*;

verus! {

/// An interpreter instance: a machine and the structural faults of the
/// program it holds.
pub struct Computer {
    memory: Vec<u8>,
    pointer: usize,
    input: VecDeque<u8>,
    input_closed: bool,
    input_failure: Option<String>,
    output: Vec<u8>,
    program: Vec<OpCode>,
    path: Vec<usize>,
    diagnostics: Vec<ParseDiagnostic>,
}

/// A control path as the model holds it.
pub open spec fn path_model(path: Seq<usize>) -> Seq<int> {
    path.map_values(|index: usize| index as int)
}

impl View for Computer {
    type V = Machine;

    closed spec fn view(&self) -> Machine {
        Machine {
            store: Store {
                memory: self.memory@,
                pointer: self.pointer as int,
                input: self.input@,
                input_closed: self.input_closed,
                input_failure: self.input_failure,
                output: self.output@,
            },
            program: model_of(self.program@),
            path: path_model(self.path@),
        }
    }
}

/// What control stands on: the kind of the operation, or the end of the
/// sequence.
#[derive(Clone, Copy)]
enum Under {
    End,
    PtrIncrement,
    PtrDecrement,
    Increment,
    Decrement,
    Write,
    Read,
    Loop,
}

spec fn under(m: Machine) -> Under {
    if m.at_end() {
        Under::End
    } else {
        match m.current() {
            Operation::PtrIncrement => Under::PtrIncrement,
            Operation::PtrDecrement => Under::PtrDecrement,
            Operation::Increment => Under::Increment,
            Operation::Decrement => Under::Decrement,
            Operation::Write => Under::Write,
            Operation::Read => Under::Read,
            Operation::Loop(_) => Under::Loop,
        }
    }
}

/// Every prefix of a valid path is valid.
proof fn lemma_valid_prefix(program: Seq<Operation>, path: Seq<int>, length: int)
    requires
        valid_path(program, path),
        1 <= length <= path.len(),
    ensures
        valid_path(program, path.take(length)),
    decreases path.len(),
{
    if length == path.len() {
        assert(path.take(length) =~= path);
    } else {
        lemma_valid_prefix(program, path.drop_last(), length);
        assert(path.drop_last().take(length) =~= path.take(length));
    }
}

impl Computer {
    /// The machine is well formed.
    pub open spec fn wf(&self) -> bool {
        self@.wf()
    }

    /// The structural faults of the program held.
    pub closed spec fn faults(&self) -> Seq<ParseDiagnostic> {
        self.diagnostics@
    }

    /// A computer with a tape of zeros, no program, and an open, empty input.
    pub fn new() -> (computer: Computer)
        ensures
            computer.wf(),
            computer@ == Machine::fresh(Seq::empty()),
            computer.faults() == Seq::<ParseDiagnostic>::empty(),
    {
        let computer = Computer {
            memory: vec![0u8; TAPE_SIZE],
            pointer: 0,
            input: VecDeque::new(),
            input_closed: false,
            input_failure: None,
            output: Vec::new(),
            program: Vec::new(),
            path: vec![0usize],
            diagnostics: Vec::new(),
        };
        proof {
            let fresh = Machine::fresh(Seq::empty());
            assert(computer@.store.memory =~= fresh.store.memory);
            assert(computer@.path =~= fresh.path);
            assert(computer@.program =~= fresh.program);
        }
        computer
    }

    /// Takes `program` as the program to run, with control on its first
    /// operation and no faults on record.
    pub fn load(&mut self, program: Vec<OpCode>)
        requires
            old(self).wf(),
        ensures
            final(self).wf(),
            final(self)@ == old(self)@.loaded(model_of(program@)),
            final(self).faults() == Seq::<ParseDiagnostic>::empty(),
    {
        self.program = program;
        self.path = vec![0usize];
        self.diagnostics = Vec::new();
        proof {
            assert(self@.path =~= seq![0int]);
        }
    }

    /// Supplies bytes for the program to read, behind those already waiting.
    pub fn feed(&mut self, bytes: &[u8])
        ensures
            final(self)@ == old(self)@.fed(bytes@),
            final(self).wf() == old(self).wf(),
            final(self).faults() == old(self).faults(),
    {
        let mut i: usize = 0;
        while i < bytes.len()
            invariant
                i <= bytes.len(),
                self@ == old(self)@.fed(bytes@.take(i as int)),
                self.faults() == old(self).faults(),
            decreases bytes.len() - i,
        {
            self.input.push_back(bytes[i]);
            proof {
                assert(old(self)@.store.input + bytes@.take(i + 1) =~= (old(self)@.store.input
                    + bytes@.take(i as int)).push(bytes@[i as int]));
            }
            i = i + 1;
        }
        proof {
            assert(bytes@.take(bytes@.len() as int) =~= bytes@);
        }
    }

    /// Declares the input ended: once the waiting bytes are read, a read
    /// finds the byte 0.
    pub fn close_input(&mut self)
        ensures
            final(self)@ == old(self)@.closed(),
            final(self).wf() == old(self).wf(),
            final(self).faults() == old(self).faults(),
    {
        self.input_closed = true;
    }

    /// Records that the input source has failed: once the waiting bytes are
    /// read, a read fails with `StdinError` and this reason.
    pub fn fail_input(&mut self, reason: String)
        ensures
            final(self)@ == old(self)@.failed(reason),
            final(self).wf() == old(self).wf(),
            final(self).faults() == old(self).faults(),
    {
        self.input_failure = Some(reason);
    }

    /// Hands over the bytes written so far and forgets them.
    pub fn take_output(&mut self) -> (bytes: Vec<u8>)
        ensures
            bytes@ == old(self)@.store.output,
            final(self)@ == old(self)@.drained(),
            final(self).wf() == old(self).wf(),
            final(self).faults() == old(self).faults(),
    {
        let mut bytes: Vec<u8> = Vec::new();
        std::mem::swap(&mut self.output, &mut bytes);
        bytes
    }

    /// The bytes written and not yet taken.
    pub fn output(&self) -> (bytes: &Vec<u8>)
        ensures
            bytes@ == self@.store.output,
    {
        &self.output
    }

    /// The tape.
    pub fn memory(&self) -> (cells: &Vec<u8>)
        ensures
            cells@ == self@.store.memory,
    {
        &self.memory
    }

    /// The index of the current cell.
    pub fn pointer(&self) -> (index: usize)
        ensures
            index == self@.store.pointer,
    {
        self.pointer
    }

    /// The structural faults of the program held.
    pub fn diagnostics(&self) -> (faults: &Vec<ParseDiagnostic>)
        ensures
            faults@ == self.faults(),
    {
        &self.diagnostics
    }

    /// Walks the control path down the operation tree and reports what
    /// control stands on.
    fn fetch(&self) -> (found: Under)
        requires
            self.wf(),
        ensures
            found == under(self@),
            self@.ops().len() <= usize::MAX,
    {
        let ghost program = model_of(self.program@);
        let ghost path = path_model(self.path@);
        let last: usize = self.path.len() - 1;
        let mut ops: &Vec<OpCode> = &self.program;
        let mut level: usize = 0;
        while level < last
            invariant
                self.wf(),
                program == model_of(self.program@),
                path == path_model(self.path@),
                last == self.path.len() - 1,
                level <= last,
                model_of(ops@) == frame(program, path.take(level + 1)),
            decreases last - level,
        {
            let index: usize = self.path[level];
            proof {
                lemma_valid_prefix(program, path, level + 2);
                assert(path.take(level + 2).drop_last() =~= path.take(level + 1));
            }
            match &ops[index] {
                OpCode::Loop(body) => {
                    proof {
                        lemma_loop_model(*body);
                    }
                    ops = body;
                },
                _ => {
                    assert(false);
                },
            }
            level = level + 1;
        }
        proof {
            assert(path.take(last + 1) =~= path);
        }
        let index: usize = self.path[last];
        if index >= ops.len() {
            Under::End
        } else {
            match &ops[index] {
                OpCode::PtrIncrement => Under::PtrIncrement,
                OpCode::PtrDecrement => Under::PtrDecrement,
                OpCode::Increment => Under::Increment,
                OpCode::Decrement => Under::Decrement,
                OpCode::Write => Under::Write,
                OpCode::Read => Under::Read,
                OpCode::Loop(_) => Under::Loop,
            }
        }
    }

    /// Moves control to the next operation of its sequence.
    fn advance(&mut self)
        requires
            old(self).wf(),
            !old(self)@.at_end(),
            old(self)@.ops().len() <= usize::MAX,
        ensures
            final(self).wf(),
            final(self)@ == old(self)@.advanced(),
            final(self).faults() == old(self).faults(),
    {
        let last: usize = self.path.len() - 1;
        let index: usize = self.path[last];
        proof {
            lemma_advanced_wf(self@);
        }
        self.path.set(last, index + 1);
        proof {
            assert(self@.path =~= old(self)@.advanced().path);
        }
    }

    /// Puts `value` in the cell under the pointer.
    fn put(&mut self, value: u8)
        requires
            old(self).wf(),
        ensures
            final(self).wf(),
            final(self)@ == old(self)@.with_cell(value),
            final(self).faults() == old(self).faults(),
    {
        let pointer: usize = self.pointer;
        self.memory.set(pointer, value);
    }

    /// What a read with nothing waiting comes to.
    fn starved(&self) -> (verdict: Result<Status, InterpreterError>)
        requires
            self@.store.input.len() == 0,
        ensures
            verdict == self@.store.verdict(Operation::Read),
    {
        match &self.input_failure {
            Some(reason) => Err(InterpreterError::StdinError(reason.clone())),
            None => if self.input_closed {
                Ok(Status::Running)
            } else {
                Ok(Status::AwaitingInput)
            },
        }
    }

    /// What the machine reports before its next step.
    pub fn status(&self) -> (status: Result<Status, InterpreterError>)
        requires
            self.wf(),
        ensures
            status == self@.status(),
    {
        match self.fetch() {
            Under::End => if self.path.len() <= 1 {
                Ok(Status::Finished)
            } else {
                Ok(Status::Running)
            },
            Under::PtrIncrement => if self.pointer + 1 < self.memory.len() {
                Ok(Status::Running)
            } else {
                Err(InterpreterError::PointerOverflow)
            },
            Under::PtrDecrement => if self.pointer > 0 {
                Ok(Status::Running)
            } else {
                Err(InterpreterError::PointerOverflow)
            },
            Under::Increment => if self.memory[self.pointer] < 255 {
                Ok(Status::Running)
            } else {
                Err(InterpreterError::MemoryOverflow)
            },
            Under::Decrement => if self.memory[self.pointer] > 0 {
                Ok(Status::Running)
            } else {
                Err(InterpreterError::MemoryOverflow)
            },
            Under::Write => Ok(Status::Running),
            Under::Read => if self.input.len() > 0 {
                Ok(Status::Running)
            } else {
                self.starved()
            },
            Under::Loop => Ok(Status::Running),
        }
    }

    /// Takes one step: performs the operation under control, or reports why
    /// none is performed and leaves the machine as it is.
    pub fn step(&mut self) -> (status: Result<Status, InterpreterError>)
        requires
            old(self).wf(),
        ensures
            final(self).wf(),
            status == old(self)@.status(),
            final(self)@ == old(self)@.step(),
            final(self).faults() == old(self).faults(),
    {
        match self.fetch() {
            Under::End => {
                if self.path.len() <= 1 {
                    return Ok(Status::Finished);
                }
                proof {
                    lemma_left_wf(self@);
                }
                self.path.pop();
                proof {
                    assert(self@.path =~= old(self)@.left().path);
                }
            },
            Under::PtrIncrement => {
                if self.pointer + 1 >= self.memory.len() {
                    return Err(InterpreterError::PointerOverflow);
                }
                self.pointer = self.pointer + 1;
                self.advance();
            },
            Under::PtrDecrement => {
                if self.pointer == 0 {
                    return Err(InterpreterError::PointerOverflow);
                }
                self.pointer = self.pointer - 1;
                self.advance();
            },
            Under::Increment => {
                let value: u8 = self.memory[self.pointer];
                if value == 255 {
                    return Err(InterpreterError::MemoryOverflow);
                }
                self.put(value + 1);
                self.advance();
            },
            Under::Decrement => {
                let value: u8 = self.memory[self.pointer];
                if value == 0 {
                    return Err(InterpreterError::MemoryOverflow);
                }
                self.put(value - 1);
                self.advance();
            },
            Under::Write => {
                let value: u8 = self.memory[self.pointer];
                self.output.push(value);
                self.advance();
            },
            Under::Read => {
                match self.input.pop_front() {
                    Some(value) => {
                        self.put(value);
                        self.advance();
                    },
                    None => {
                        let verdict = self.starved();
                        match verdict {
                            Ok(Status::Running) => {},
                            _ => {
                                return verdict;
                            },
                        }
                        self.put(0);
                        self.advance();
                    },
                }
            },
            Under::Loop => {
                if self.memory[self.pointer] != 0 {
                    proof {
                        lemma_entered_wf(self@);
                    }
                    self.path.push(0);
                    proof {
                        assert(self@.path =~= old(self)@.entered().path);
                    }
                } else {
                    self.advance();
                }
            },
        }
        Ok(Status::Running)
    }

    /// Runs the machine for at most `budget` steps. It returns earlier where
    /// the machine finishes, waits for input or stops on an error; what it
    /// returns is what the machine reports where it was left.
    pub fn execute(&mut self, budget: u64) -> (status: Result<Status, InterpreterError>)
        requires
            old(self).wf(),
        ensures
            final(self).wf(),
            final(self)@ == old(self)@.run(budget as nat),
            status == final(self)@.status(),
            final(self).faults() == old(self).faults(),
    {
        let mut taken: u64 = 0;
        while taken < budget
            invariant
                taken <= budget,
                self.wf(),
                self@ == old(self)@.run(taken as nat),
                self.faults() == old(self).faults(),
            decreases budget - taken,
        {
            proof {
                lemma_run_then_step(old(self)@, taken as nat);
            }
            let status = self.step();
            match status {
                Ok(Status::Running) => {},
                _ => {
                    proof {
                        lemma_stopped_stays(self@, (budget - taken) as nat);
                        lemma_run_split(
                            old(self)@,
                            taken as nat,
                            (budget - taken) as nat,
                        );
                    }
                    return status;
                },
            }
            taken = taken + 1;
        }
        self.status()
    }

    /// Interprets a source text: lexes it, parses it, takes the result as
    /// the program and runs it for at most `budget` steps on the store as it
    /// stands. Structural faults of the source do not stop this: they are
    /// put on record and the operations that parsed are run.
    ///
    /// What comes back is what the machine reports where the run was left.
    /// Unless that is `Running`, the run has ended, and it has ended as
    /// performing the parsed operations in order, loops by repetition, ends:
    /// with the same store, and with the same error if with any. A run that
    /// is left `Running` or `AwaitingInput` goes on with `execute`.
    pub fn interpreter(&mut self, source_code: &str, budget: u64) -> (status: Result<
        Status,
        InterpreterError,
    >)
        requires
            old(self).wf(),
        ensures
            final(self).wf(),
            final(self)@ == old(self)@.loaded(parse(lex(source_code@))).run(budget as nat),
            status == final(self)@.status(),
            !final(self)@.running() ==> ends_with(
                perform_all(parse(lex(source_code@)), old(self)@.store, budget as nat),
                final(self)@.store,
                status,
            ),
            final(self).faults() == diagnostics(lex(source_code@)),
    {
        let lexed_codes = self.lexer(source_code);
        let parsed = self.parser(&lexed_codes);
        self.load(parsed.0);
        self.diagnostics = parsed.1;
        let status = self.execute(budget);
        proof {
            if !self@.running() {
                lemma_ended_run_is_descent(
                    parse(lex(source_code@)),
                    old(self)@.store,
                    budget as nat,
                );
            }
        }
        status
    }
}

} // verus!

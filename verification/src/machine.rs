//! The abstract machine: the mathematical model of a run.
//!
//! A machine is a store (the tape, the data pointer, the bytes waiting to be
//! read and the bytes written), a program, and a control path into the
//! program. One step performs the operation under control. Everything the
//! executable interpreter does is stated against this model.

use crate::errors::InterpreterError;
use crate::parser::Operation;
use vstd::prelude::*;

verus! {

/// The number of cells on the tape.
pub const TAPE_SIZE: usize = 30_000;

/// What a machine reports of itself before a step.
#[derive(Clone, Copy, Debug, PartialEq, Eq, Structural)]
pub enum Status {
    /// The next step performs an operation.
    Running,
    /// The operation under control reads a byte, none is waiting, and the
    /// input has not been closed.
    AwaitingInput,
    /// Control stands behind the last operation of the program.
    Finished,
}

/// What operations read and change.
pub struct Store {
    /// The tape.
    pub memory: Seq<u8>,
    /// The index of the current cell.
    pub pointer: int,
    /// The bytes supplied and not yet read.
    pub input: Seq<u8>,
    /// Whether the input has ended: a read with nothing waiting then finds
    /// the byte 0.
    pub input_closed: bool,
    /// The reason the input source gave when it failed, if it has: a read
    /// with nothing waiting then fails with it.
    pub input_failure: Option<String>,
    /// The bytes written and not yet collected.
    pub output: Seq<u8>,
}

impl Store {
    /// A tape of zeros with the pointer on the first cell, nothing to read,
    /// the input open, nothing written.
    pub open spec fn fresh() -> Store {
        Store {
            memory: Seq::new(TAPE_SIZE as nat, |i: int| 0u8),
            pointer: 0,
            input: Seq::empty(),
            input_closed: false,
            input_failure: None,
            output: Seq::empty(),
        }
    }

    /// The tape has its fixed length and the pointer is on it.
    pub open spec fn wf(self) -> bool {
        &&& self.memory.len() == TAPE_SIZE
        &&& 0 <= self.pointer < TAPE_SIZE
    }

    /// The byte under the pointer.
    pub open spec fn cell(self) -> u8 {
        self.memory[self.pointer]
    }

    /// This store with another byte under the pointer.
    pub open spec fn with_cell(self, value: u8) -> Store {
        Store { memory: self.memory.update(self.pointer, value), ..self }
    }

    /// Whether `op` can be performed on this store: `Ok(Running)` if it can,
    /// else the error it fails with, or that it waits for input. A move fails
    /// where it would leave the tape, an increment on 255 and a decrement on
    /// 0. A read with nothing waiting fails where the input source has
    /// failed, and waits where the input is neither failed nor closed. A
    /// write and the test of a loop can always be performed.
    pub open spec fn verdict(self, op: Operation) -> Result<Status, InterpreterError> {
        match op {
            Operation::PtrIncrement => if self.pointer + 1 < self.memory.len() {
                Ok(Status::Running)
            } else {
                Err(InterpreterError::PointerOverflow)
            },
            Operation::PtrDecrement => if self.pointer > 0 {
                Ok(Status::Running)
            } else {
                Err(InterpreterError::PointerOverflow)
            },
            Operation::Increment => if self.cell() < 255 {
                Ok(Status::Running)
            } else {
                Err(InterpreterError::MemoryOverflow)
            },
            Operation::Decrement => if self.cell() > 0 {
                Ok(Status::Running)
            } else {
                Err(InterpreterError::MemoryOverflow)
            },
            Operation::Write => Ok(Status::Running),
            Operation::Read => if self.input.len() > 0 {
                Ok(Status::Running)
            } else if self.input_failure is Some {
                Err(InterpreterError::StdinError(self.input_failure->0))
            } else if self.input_closed {
                Ok(Status::Running)
            } else {
                Ok(Status::AwaitingInput)
            },
            Operation::Loop(_) => Ok(Status::Running),
        }
    }

    /// Whether `op` can be performed on this store.
    pub open spec fn allows(self, op: Operation) -> bool {
        self.verdict(op) == Ok::<Status, InterpreterError>(Status::Running)
    }

    /// The store after a leaf operation that it allows. A move shifts the
    /// pointer by one, an increment or decrement changes the cell by one, a
    /// write appends the cell to the output, and a read puts the first
    /// waiting byte in the cell, or 0 where none is waiting.
    pub open spec fn effect(self, op: Operation) -> Store {
        match op {
            Operation::PtrIncrement => Store { pointer: self.pointer + 1, ..self },
            Operation::PtrDecrement => Store { pointer: self.pointer - 1, ..self },
            Operation::Increment => self.with_cell((self.cell() + 1) as u8),
            Operation::Decrement => self.with_cell((self.cell() - 1) as u8),
            Operation::Write => Store { output: self.output.push(self.cell()), ..self },
            Operation::Read => if self.input.len() > 0 {
                Store { input: self.input.drop_first(), ..self }.with_cell(self.input[0])
            } else {
                self.with_cell(0)
            },
            Operation::Loop(_) => self,
        }
    }
}

/// A leaf operation that a well-formed store allows leaves it well formed.
pub proof fn lemma_effect_wf(store: Store, op: Operation)
    requires
        store.wf(),
        store.allows(op),
    ensures
        store.effect(op).wf(),
{
}

/// The operation sequence that the last index of `path` points into: the
/// program itself for a path of one index, else the body of the loop that
/// the index before the last selects in the sequence of the shorter path.
pub open spec fn frame(program: Seq<Operation>, path: Seq<int>) -> Seq<Operation>
    decreases path.len(),
{
    if path.len() <= 1 {
        program
    } else {
        let outer = frame(program, path.drop_last());
        match outer[path[path.len() - 2]] {
            Operation::Loop(body) => body,
            _ => Seq::empty(),
        }
    }
}

/// A control path is valid when every index but the last selects a loop in
/// its sequence, and the last selects an operation of its sequence or stands
/// just behind the last one.
pub open spec fn valid_path(program: Seq<Operation>, path: Seq<int>) -> bool
    decreases path.len(),
{
    &&& path.len() >= 1
    &&& 0 <= path.last() <= frame(program, path).len()
    &&& path.len() > 1 ==> {
        &&& valid_path(program, path.drop_last())
        &&& path[path.len() - 2] < frame(program, path.drop_last()).len()
        &&& frame(program, path.drop_last())[path[path.len() - 2]] is Loop
    }
}

/// The state of a run.
pub struct Machine {
    /// What the operations read and change.
    pub store: Store,
    /// The operations to run.
    pub program: Seq<Operation>,
    /// Where control stands in the program.
    pub path: Seq<int>,
}

impl Machine {
    /// A machine before its first step: a fresh store, control on the first
    /// operation.
    pub open spec fn fresh(program: Seq<Operation>) -> Machine {
        Machine { store: Store::fresh(), program, path: seq![0int] }
    }

    /// This machine with another program and control on its first operation.
    /// The store stays.
    pub open spec fn loaded(self, program: Seq<Operation>) -> Machine {
        Machine { program, path: seq![0int], ..self }
    }

    /// This machine with `bytes` waiting to be read behind those that
    /// already wait.
    pub open spec fn fed(self, bytes: Seq<u8>) -> Machine {
        Machine { store: Store { input: self.store.input + bytes, ..self.store }, ..self }
    }

    /// This machine with its input closed.
    pub open spec fn closed(self) -> Machine {
        Machine { store: Store { input_closed: true, ..self.store }, ..self }
    }

    /// This machine after its input source has failed for `reason`.
    pub open spec fn failed(self, reason: String) -> Machine {
        Machine { store: Store { input_failure: Some(reason), ..self.store }, ..self }
    }

    /// This machine with its output collected.
    pub open spec fn drained(self) -> Machine {
        Machine { store: Store { output: Seq::empty(), ..self.store }, ..self }
    }

    /// The store is well formed and control is at a place of the program.
    pub open spec fn wf(self) -> bool {
        &&& self.store.wf()
        &&& valid_path(self.program, self.path)
    }

    /// The byte under the pointer.
    pub open spec fn cell(self) -> u8 {
        self.store.cell()
    }

    /// This machine with another byte under the pointer.
    pub open spec fn with_cell(self, value: u8) -> Machine {
        Machine { store: self.store.with_cell(value), ..self }
    }

    /// The sequence that control is in.
    pub open spec fn ops(self) -> Seq<Operation> {
        frame(self.program, self.path)
    }

    /// Control stands behind the last operation of its sequence.
    pub open spec fn at_end(self) -> bool {
        self.path.last() >= self.ops().len()
    }

    /// The operation under control.
    pub open spec fn current(self) -> Operation
        recommends
            !self.at_end(),
    {
        self.ops()[self.path.last()]
    }

    /// This machine with control moved to the next operation of its sequence.
    pub open spec fn advanced(self) -> Machine {
        Machine { path: self.path.update(self.path.len() - 1, self.path.last() + 1), ..self }
    }

    /// This machine with control on the first operation of the loop body
    /// that it stood before.
    pub open spec fn entered(self) -> Machine {
        Machine { path: self.path.push(0), ..self }
    }

    /// This machine with control back on the loop whose body it was in.
    pub open spec fn left(self) -> Machine {
        Machine { path: self.path.drop_last(), ..self }
    }

    /// What the machine reports before its next step: that it can take one,
    /// that it waits or has finished, or the error on which it stops.
    pub open spec fn status(self) -> Result<Status, InterpreterError> {
        if !self.at_end() {
            self.store.verdict(self.current())
        } else if self.path.len() <= 1 {
            Ok(Status::Finished)
        } else {
            Ok(Status::Running)
        }
    }

    /// Whether the next step performs an operation.
    pub open spec fn running(self) -> bool {
        self.status() == Ok::<Status, InterpreterError>(Status::Running)
    }

    /// The machine after one step. A machine that is not running stays as it
    /// is. At the end of a loop body control goes back to the loop, which the
    /// step after tests again. A loop is entered when the cell is not 0 and
    /// passed over when it is. A leaf has its effect on the store, and
    /// control moves on.
    pub open spec fn step(self) -> Machine {
        if !self.running() {
            self
        } else if self.at_end() {
            self.left()
        } else if self.current() is Loop {
            if self.cell() != 0 {
                self.entered()
            } else {
                self.advanced()
            }
        } else {
            Machine { store: self.store.effect(self.current()), ..self }.advanced()
        }
    }

    /// The machine after at most `steps` steps: it stops earlier where it is
    /// no longer running.
    pub open spec fn run(self, steps: nat) -> Machine
        decreases steps,
    {
        if steps == 0 {
            self
        } else {
            self.step().run((steps - 1) as nat)
        }
    }
}

/// Moving control to the next operation keeps a path valid.
pub proof fn lemma_advanced_wf(m: Machine)
    requires
        m.wf(),
        !m.at_end(),
    ensures
        m.advanced().wf(),
        m.advanced().ops() == m.ops(),
{
    assert(m.advanced().path.drop_last() =~= m.path.drop_last());
}

/// Entering the loop under control keeps a path valid.
pub proof fn lemma_entered_wf(m: Machine)
    requires
        m.wf(),
        !m.at_end(),
        m.current() is Loop,
    ensures
        m.entered().wf(),
        m.entered().ops() == m.current()->Loop_0,
{
    let path = m.entered().path;
    assert(path.drop_last() =~= m.path);
}

/// Leaving a loop body puts control on the loop, in a valid path.
pub proof fn lemma_left_wf(m: Machine)
    requires
        m.wf(),
        m.path.len() > 1,
    ensures
        m.left().wf(),
        !m.left().at_end(),
        m.left().current() == Operation::Loop(m.ops()),
{
}

/// A step keeps a machine well formed.
pub proof fn lemma_step_wf(m: Machine)
    requires
        m.wf(),
    ensures
        m.step().wf(),
{
    if m.running() {
        if m.at_end() {
            lemma_left_wf(m);
        } else if m.current() is Loop {
            if m.cell() != 0 {
                lemma_entered_wf(m);
            } else {
                lemma_advanced_wf(m);
            }
        } else {
            lemma_effect_wf(m.store, m.current());
            lemma_advanced_wf(Machine { store: m.store.effect(m.current()), ..m });
        }
    }
}

/// A run keeps a machine well formed.
pub proof fn lemma_run_wf(m: Machine, steps: nat)
    requires
        m.wf(),
    ensures
        m.run(steps).wf(),
    decreases steps,
{
    if steps > 0 {
        lemma_step_wf(m);
        lemma_run_wf(m.step(), (steps - 1) as nat);
    }
}

/// A run of one step more is the run, then one step.
pub proof fn lemma_run_then_step(m: Machine, steps: nat)
    ensures
        m.run(steps + 1) == m.run(steps).step(),
    decreases steps,
{
    if steps > 0 {
        lemma_run_then_step(m.step(), (steps - 1) as nat);
        assert(m.run(steps + 1) == m.step().run(steps));
    }
}

/// A run in two parts is the run of both lengths together.
pub proof fn lemma_run_split(m: Machine, first: nat, second: nat)
    ensures
        m.run(first + second) == m.run(first).run(second),
    decreases first,
{
    if first > 0 {
        lemma_run_split(m.step(), (first - 1) as nat, second);
    }
}

/// A machine that is not running stays as it is, however long it is run.
pub proof fn lemma_stopped_stays(m: Machine, steps: nat)
    requires
        !m.running(),
    ensures
        m.run(steps) == m,
    decreases steps,
{
    if steps > 0 {
        lemma_stopped_stays(m, (steps - 1) as nat);
    }
}

} // verus!

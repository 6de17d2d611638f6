//! Recursive descent: what a tree of operations does to a store, told
//! without a machine, and the proof that the machine does the same.

use crate::errors::InterpreterError;
use crate::machine::{
    lemma_advanced_wf, lemma_entered_wf, lemma_left_wf, lemma_run_split, lemma_run_wf,
    lemma_stopped_stays, Machine, Status, Store,
};
use crate::parser::Operation;
use vstd::prelude::*;

verus! {

/// How performing a sequence of operations ends.
pub enum Outcome {
    /// Every operation was performed. `store` is the store after the last
    /// one, `steps` the number of machine steps this takes.
    Completed { store: Store, steps: nat },
    /// An operation could not be performed, and nothing after it was.
    /// `store` is the store it met, `why` the error or the wait, `steps` the
    /// number of machine steps taken before it.
    Stopped { store: Store, why: Result<Status, InterpreterError>, steps: nat },
    /// The allowance of loop rounds was used up before the end. `store` is
    /// the store that the round without allowance met, `steps` the number of
    /// machine steps taken before it.
    Unfinished { store: Store, steps: nat },
}

impl Outcome {
    /// The steps that the outcome counts.
    pub open spec fn steps(self) -> nat {
        match self {
            Outcome::Completed { store: _, steps } => steps,
            Outcome::Stopped { store: _, why: _, steps } => steps,
            Outcome::Unfinished { store: _, steps } => steps,
        }
    }

    /// This outcome, reached `steps` steps later.
    pub open spec fn after(self, steps: nat) -> Outcome {
        match self {
            Outcome::Completed { store, steps: taken } => Outcome::Completed {
                store,
                steps: taken + steps,
            },
            Outcome::Stopped { store, why, steps: taken } => Outcome::Stopped {
                store,
                why,
                steps: taken + steps,
            },
            Outcome::Unfinished { store, steps: taken } => Outcome::Unfinished {
                store,
                steps: taken + steps,
            },
        }
    }
}

/// Performs `ops` in order on `store`. A leaf that the store allows has its
/// effect and counts one step; one that it does not allow stops everything.
/// A loop is performed by `perform_loop`. `rounds` bounds how many loop
/// rounds may be begun one inside or after another.
pub open spec fn perform_all(ops: Seq<Operation>, store: Store, rounds: nat) -> Outcome
    decreases rounds, ops, 0nat,
{
    if ops.len() == 0 {
        Outcome::Completed { store, steps: 0 }
    } else {
        let first = match ops[0] {
            Operation::Loop(body) => perform_loop(body, store, rounds),
            leaf => if store.allows(leaf) {
                Outcome::Completed { store: store.effect(leaf), steps: 1 }
            } else {
                Outcome::Stopped { store, why: store.verdict(leaf), steps: 0 }
            },
        };
        match first {
            Outcome::Completed { store: next, steps } => perform_all(
                ops.drop_first(),
                next,
                rounds,
            ).after(steps),
            stopped => stopped,
        }
    }
}

/// Performs the loop with this body: as long as the cell under the pointer
/// is not 0, performs the body in full and tests the cell again. The test
/// comes before every round, the first too. Each test counts one step, and
/// so does the return from the end of the body to the loop.
pub open spec fn perform_loop(body: Seq<Operation>, store: Store, rounds: nat) -> Outcome
    decreases rounds, body, 1nat,
{
    if store.cell() == 0 {
        Outcome::Completed { store, steps: 1 }
    } else if rounds == 0 {
        Outcome::Unfinished { store, steps: 0 }
    } else {
        match perform_all(body, store, (rounds - 1) as nat) {
            Outcome::Completed { store: next, steps } => perform_loop(
                body,
                next,
                (rounds - 1) as nat,
            ).after(steps + 2),
            stopped => stopped.after(1),
        }
    }
}

/// The operations of the sequence under control that are still to be
/// performed: the one under control and those behind it.
pub open spec fn remaining(m: Machine) -> Seq<Operation> {
    m.ops().skip(m.path.last())
}

/// The machine bears the outcome out: run for the steps that the outcome
/// counts, it has the store that the outcome names; if the outcome is
/// complete, control is at `target`; if it is a stop, the machine reports
/// the reason; if it is unfinished, the machine is still running.
pub open spec fn bears_out(m: Machine, outcome: Outcome, target: Seq<int>) -> bool {
    match outcome {
        Outcome::Completed { store, steps } => m.run(steps) == Machine { store, path: target, ..m },
        Outcome::Stopped { store, why, steps } => {
            &&& m.run(steps).store == store
            &&& m.run(steps).status() == why
        },
        Outcome::Unfinished { store, steps } => {
            &&& m.run(steps).store == store
            &&& m.run(steps).running()
        },
    }
}

/// The control path of `m` with its last index behind the last operation.
pub open spec fn end_of_sequence(m: Machine) -> Seq<int> {
    m.path.update(m.path.len() - 1, m.ops().len() as int)
}

/// A run of one step is a step.
proof fn lemma_one_step(m: Machine)
    ensures
        m.run(1) == m.step(),
{
    assert(m.run(1) == m.step().run(0));
}

/// Wherever control stands, the machine performs the rest of the sequence
/// under control as recursive descent does, and arrives at its end.
pub proof fn lemma_machine_performs_rest(m: Machine, rounds: nat)
    requires
        m.wf(),
    ensures
        bears_out(m, perform_all(remaining(m), m.store, rounds), end_of_sequence(m)),
    decreases rounds, m.ops().len() - m.path.last(), 1nat,
{
    let ops = remaining(m);
    if m.at_end() {
        assert(end_of_sequence(m) =~= m.path);
    } else {
        let op = m.current();
        let first = match op {
            Operation::Loop(body) => perform_loop(body, m.store, rounds),
            leaf => if m.store.allows(leaf) {
                Outcome::Completed { store: m.store.effect(leaf), steps: 1 }
            } else {
                Outcome::Stopped { store: m.store, why: m.store.verdict(leaf), steps: 0 }
            },
        };
        assert(bears_out(m, first, m.advanced().path)) by {
            if op is Loop {
                lemma_machine_performs_loop(m, rounds);
            } else if m.store.allows(op) {
                lemma_one_step(m);
            }
        }
        match first {
            Outcome::Completed { store: next, steps } => {
                let behind = m.run(steps);
                lemma_run_wf(m, steps);
                lemma_advanced_wf(Machine { store: next, ..m });
                assert(remaining(behind) == ops.drop_first());
                assert(end_of_sequence(behind) =~= end_of_sequence(m));
                lemma_machine_performs_rest(behind, rounds);
                lemma_run_split(m, steps, perform_all(ops.drop_first(), next, rounds).steps());
            },
            _ => {},
        }
    }
}

/// With control on a loop, the machine performs the loop as recursive
/// descent does, and arrives behind it.
pub proof fn lemma_machine_performs_loop(m: Machine, rounds: nat)
    requires
        m.wf(),
        !m.at_end(),
        m.current() is Loop,
    ensures
        bears_out(m, perform_loop(m.current()->Loop_0, m.store, rounds), m.advanced().path),
    decreases rounds, m.ops().len() - m.path.last(), 0nat,
{
    let body = m.current()->Loop_0;
    lemma_one_step(m);
    if m.cell() != 0 && rounds > 0 {
        let inside = m.entered();
        lemma_entered_wf(m);
        assert(remaining(inside) =~= body);
        lemma_machine_performs_rest(inside, (rounds - 1) as nat);
        match perform_all(body, m.store, (rounds - 1) as nat) {
            Outcome::Completed { store: next, steps } => {
                let done = inside.run(steps);
                lemma_run_wf(inside, steps);
                assert(done.path.drop_last() =~= inside.path.drop_last());
                lemma_left_wf(done);
                lemma_one_step(done);
                let again = done.step();
                assert(again.path =~= m.path);
                lemma_machine_performs_loop(again, (rounds - 1) as nat);
                lemma_run_split(m, 1, steps);
                lemma_run_split(m, 1 + steps, 1);
                lemma_run_split(
                    m,
                    steps + 2,
                    perform_loop(body, next, (rounds - 1) as nat).steps(),
                );
            },
            stopped => {
                lemma_run_split(m, 1, stopped.steps());
            },
        }
    }
}

/// An allowance of loop rounds lasts at least as many steps: where
/// performing a sequence is unfinished, no fewer steps were taken than
/// rounds were allowed.
pub proof fn lemma_unfinished_is_late(ops: Seq<Operation>, store: Store, rounds: nat)
    ensures
        perform_all(ops, store, rounds) matches Outcome::Unfinished { steps, .. } ==> steps
            >= rounds,
    decreases rounds, ops, 0nat,
{
    if ops.len() > 0 {
        let first = match ops[0] {
            Operation::Loop(body) => perform_loop(body, store, rounds),
            leaf => if store.allows(leaf) {
                Outcome::Completed { store: store.effect(leaf), steps: 1 }
            } else {
                Outcome::Stopped { store, why: store.verdict(leaf), steps: 0 }
            },
        };
        if ops[0] is Loop {
            lemma_unfinished_loop_is_late(ops[0]->Loop_0, store, rounds);
        }
        match first {
            Outcome::Completed { store: next, steps: _ } => {
                lemma_unfinished_is_late(ops.drop_first(), next, rounds);
            },
            _ => {},
        }
    }
}

/// The same of a loop.
pub proof fn lemma_unfinished_loop_is_late(body: Seq<Operation>, store: Store, rounds: nat)
    ensures
        perform_loop(body, store, rounds) matches Outcome::Unfinished { steps, .. } ==> steps
            >= rounds,
    decreases rounds, body, 1nat,
{
    if store.cell() != 0 && rounds > 0 {
        lemma_unfinished_is_late(body, store, (rounds - 1) as nat);
        match perform_all(body, store, (rounds - 1) as nat) {
            Outcome::Completed { store: next, steps: _ } => {
                lemma_unfinished_loop_is_late(body, next, (rounds - 1) as nat);
            },
            _ => {},
        }
    }
}

/// The machine does what recursive descent does. Where performing a program
/// on a store completes, the machine started on that program and store
/// takes the steps counted, has the same store and has finished. Where it
/// stops, the machine takes the steps counted, has the store that the
/// failing operation met, and reports the same error or wait. Where it is
/// unfinished, the machine is still running after the steps counted.
pub proof fn lemma_machine_performs_program(program: Seq<Operation>, store: Store, rounds: nat)
    requires
        store.wf(),
    ensures
        match perform_all(program, store, rounds) {
            Outcome::Completed { store: last, steps } => {
                let end = (Machine { store, program, path: seq![0int] }).run(steps);
                &&& end.store == last
                &&& end.status() == Ok::<Status, InterpreterError>(Status::Finished)
            },
            Outcome::Stopped { store: met, why, steps } => {
                let end = (Machine { store, program, path: seq![0int] }).run(steps);
                &&& end.store == met
                &&& end.status() == why
                &&& !end.running()
            },
            Outcome::Unfinished { store: met, steps } => {
                let end = (Machine { store, program, path: seq![0int] }).run(steps);
                &&& end.store == met
                &&& end.running()
                &&& steps >= rounds
            },
        },
{
    let m = Machine { store, program, path: seq![0int] };
    assert(remaining(m) =~= program);
    lemma_machine_performs_rest(m, rounds);
    lemma_unfinished_is_late(program, store, rounds);
    lemma_stops_are_stops(program, store, rounds);
}

/// Recursive descent stops only on an error or a wait.
pub proof fn lemma_stops_are_stops(ops: Seq<Operation>, store: Store, rounds: nat)
    ensures
        perform_all(ops, store, rounds) matches Outcome::Stopped { why, .. } ==> why != Ok::<
            Status,
            InterpreterError,
        >(Status::Running),
    decreases rounds, ops, 0nat,
{
    if ops.len() > 0 {
        let first = match ops[0] {
            Operation::Loop(body) => perform_loop(body, store, rounds),
            leaf => if store.allows(leaf) {
                Outcome::Completed { store: store.effect(leaf), steps: 1 }
            } else {
                Outcome::Stopped { store, why: store.verdict(leaf), steps: 0 }
            },
        };
        if ops[0] is Loop {
            lemma_loop_stops_are_stops(ops[0]->Loop_0, store, rounds);
        }
        match first {
            Outcome::Completed { store: next, steps: _ } => {
                lemma_stops_are_stops(ops.drop_first(), next, rounds);
            },
            _ => {},
        }
    }
}

/// The same of a loop.
pub proof fn lemma_loop_stops_are_stops(body: Seq<Operation>, store: Store, rounds: nat)
    ensures
        perform_loop(body, store, rounds) matches Outcome::Stopped { why, .. } ==> why != Ok::<
            Status,
            InterpreterError,
        >(Status::Running),
    decreases rounds, body, 1nat,
{
    if store.cell() != 0 && rounds > 0 {
        lemma_stops_are_stops(body, store, (rounds - 1) as nat);
        match perform_all(body, store, (rounds - 1) as nat) {
            Outcome::Completed { store: next, steps: _ } => {
                lemma_loop_stops_are_stops(body, next, (rounds - 1) as nat);
            },
            _ => {},
        }
    }
}

/// The outcome is an end with this store and this report: complete, with
/// the report that the program has finished, or stopped, with its reason as
/// the report.
pub open spec fn ends_with(
    outcome: Outcome,
    store: Store,
    report: Result<Status, InterpreterError>,
) -> bool {
    match outcome {
        Outcome::Completed { store: last, steps: _ } => {
            &&& store == last
            &&& report == Ok::<Status, InterpreterError>(Status::Finished)
        },
        Outcome::Stopped { store: met, why, steps: _ } => {
            &&& store == met
            &&& report == why
        },
        Outcome::Unfinished { .. } => false,
    }
}

/// Every run that ends is a recursive descent. Where the machine started on
/// a program and a store is no longer running after `steps` steps,
/// performing the program on the store with an allowance of `steps` rounds
/// is not unfinished: it ends with the store that the machine has, complete
/// where the machine has finished, and stopped for the reason that the
/// machine reports where it has not.
pub proof fn lemma_ended_run_is_descent(program: Seq<Operation>, store: Store, steps: nat)
    requires
        store.wf(),
        !(Machine { store, program, path: seq![0int] }).run(steps).running(),
    ensures
        ends_with(
            perform_all(program, store, steps),
            (Machine { store, program, path: seq![0int] }).run(steps).store,
            (Machine { store, program, path: seq![0int] }).run(steps).status(),
        ),
{
    let m = Machine { store, program, path: seq![0int] };
    let end = m.run(steps);
    lemma_machine_performs_program(program, store, steps);
    let counted = perform_all(program, store, steps).steps();
    if counted >= steps {
        lemma_run_split(m, steps, (counted - steps) as nat);
        lemma_stopped_stays(end, (counted - steps) as nat);
    } else {
        lemma_run_split(m, counted, (steps - counted) as nat);
        lemma_stopped_stays(m.run(counted), (steps - counted) as nat);
    }
}

} // verus!

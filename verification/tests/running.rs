use rainfuck::{Computer, InterpreterError, OpCode, ParseDiagnostic, Status, TAPE_SIZE};

#[test]
fn a_new_computer_is_blank() {
    let computer = Computer::new();
    assert_eq!(computer.memory().len(), 30_000);
    assert_eq!(TAPE_SIZE, 30_000);
    assert!(computer.memory().iter().all(|cell| *cell == 0));
    assert_eq!(computer.pointer(), 0);
    assert!(computer.output().is_empty());
    assert!(computer.diagnostics().is_empty());
    assert_eq!(computer.status(), Ok(Status::Finished));
}

#[test]
fn addition_by_loop_writes_seven() {
    let mut computer = Computer::new();
    let status = computer.interpreter("++>+++++[<+>-]<.", 1_000);
    assert_eq!(status, Ok(Status::Finished));
    assert_eq!(computer.memory()[0], 7);
    assert_eq!(computer.memory()[1], 0);
    assert_eq!(computer.pointer(), 0);
    assert_eq!(computer.output(), &vec![7u8]);
    assert_eq!(computer.output()[0] as char, '\u{7}');
}

#[test]
fn moving_left_of_the_first_cell_fails() {
    let mut computer = Computer::new();
    let status = computer.interpreter("<+", 100);
    assert_eq!(status, Err(InterpreterError::PointerOverflow));
    assert_eq!(computer.pointer(), 0);
    assert_eq!(computer.memory()[0], 0);
}

#[test]
fn moving_right_of_the_last_cell_fails() {
    let mut computer = Computer::new();
    let source = format!("{}+", ">".repeat(30_000));
    let status = computer.interpreter(&source, 100_000);
    assert_eq!(status, Err(InterpreterError::PointerOverflow));
    assert_eq!(computer.pointer(), 29_999);
    assert_eq!(computer.memory()[29_999], 0);
}

#[test]
fn the_last_cell_can_be_reached_and_used() {
    let mut computer = Computer::new();
    let source = format!("{}+.", ">".repeat(29_999));
    let status = computer.interpreter(&source, 100_000);
    assert_eq!(status, Ok(Status::Finished));
    assert_eq!(computer.pointer(), 29_999);
    assert_eq!(computer.output(), &vec![1u8]);
}

#[test]
fn decrementing_zero_fails() {
    let mut computer = Computer::new();
    let status = computer.interpreter("-.", 100);
    assert_eq!(status, Err(InterpreterError::MemoryOverflow));
    assert_eq!(computer.memory()[0], 0);
    assert!(computer.output().is_empty());
}

#[test]
fn incrementing_past_a_byte_fails() {
    let mut computer = Computer::new();
    let source = "+".repeat(256);
    let status = computer.interpreter(&source, 1_000);
    assert_eq!(status, Err(InterpreterError::MemoryOverflow));
    assert_eq!(computer.memory()[0], 255);
}

#[test]
fn a_cell_can_hold_the_largest_byte() {
    let mut computer = Computer::new();
    let source = "+".repeat(255);
    let status = computer.interpreter(&source, 1_000);
    assert_eq!(status, Ok(Status::Finished));
    assert_eq!(computer.memory()[0], 255);
}

#[test]
fn an_error_stays_an_error() {
    let mut computer = Computer::new();
    assert_eq!(
        computer.interpreter("+<+", 100),
        Err(InterpreterError::PointerOverflow)
    );
    assert_eq!(computer.execute(100), Err(InterpreterError::PointerOverflow));
    assert_eq!(computer.step(), Err(InterpreterError::PointerOverflow));
    assert_eq!(computer.status(), Err(InterpreterError::PointerOverflow));
    assert_eq!(computer.memory()[0], 1);
}

#[test]
fn an_error_inside_nested_loops_ends_the_run() {
    let mut computer = Computer::new();
    let status = computer.interpreter("+[[<]+]+", 100);
    assert_eq!(status, Err(InterpreterError::PointerOverflow));
    assert_eq!(computer.memory()[0], 1);
}

#[test]
fn clearing_loop_takes_as_many_rounds_as_the_cell_holds() {
    for n in 1..=255usize {
        let mut computer = Computer::new();
        let source = format!("{}[-]", "+".repeat(n));
        let exact = (n + 3 * n + 1) as u64;
        assert_eq!(computer.interpreter(&source, exact - 1), Ok(Status::Running));
        assert_eq!(computer.execute(1), Ok(Status::Finished));
        assert_eq!(computer.memory()[0], 0);
    }
}

#[test]
fn clearing_loop_rounds_lower_the_cell_one_by_one() {
    let mut computer = Computer::new();
    assert_eq!(computer.interpreter("+++++[-]", 5), Ok(Status::Running));
    for left in (0..5u8).rev() {
        assert_eq!(computer.execute(3), Ok(Status::Running));
        assert_eq!(computer.memory()[0], left);
    }
    assert_eq!(computer.execute(1), Ok(Status::Finished));
}

#[test]
fn a_loop_on_a_zero_cell_is_passed_over() {
    let mut computer = Computer::new();
    let status = computer.interpreter("[-]", 1);
    assert_eq!(status, Ok(Status::Finished));
    assert_eq!(computer.memory()[0], 0);
}

#[test]
fn a_loop_body_that_would_fail_is_not_run_on_zero() {
    let mut computer = Computer::new();
    assert_eq!(computer.interpreter("[<]+.", 100), Ok(Status::Finished));
    assert_eq!(computer.output(), &vec![1u8]);
}

#[test]
fn straight_line_program_takes_one_step_per_operation() {
    let mut computer = Computer::new();
    assert_eq!(computer.interpreter("+>+<-", 4), Ok(Status::Running));
    assert_eq!(computer.execute(1), Ok(Status::Finished));
    assert_eq!(computer.memory()[0], 0);
    assert_eq!(computer.memory()[1], 1);
}

#[test]
fn equal_runs_end_equal() {
    let source = "++[>+++<-]>.";
    let mut first = Computer::new();
    let mut second = Computer::new();
    assert_eq!(first.interpreter(source, 500), second.interpreter(source, 500));
    assert_eq!(first.memory(), second.memory());
    assert_eq!(first.pointer(), second.pointer());
    assert_eq!(first.output(), second.output());
    assert_eq!(first.output(), &vec![6u8]);
}

#[test]
fn a_run_in_slices_ends_like_a_run_in_one() {
    let source = "+++[>++[>+<-]<-]>>.";
    let mut whole = Computer::new();
    assert_eq!(whole.interpreter(source, 10_000), Ok(Status::Finished));
    let mut sliced = Computer::new();
    let mut status = sliced.interpreter(source, 0);
    let mut slices: u32 = 0;
    while status == Ok(Status::Running) {
        status = sliced.execute(7);
        slices += 1;
        assert!(slices < 10_000);
    }
    assert_eq!(status, Ok(Status::Finished));
    assert_eq!(sliced.memory(), whole.memory());
    assert_eq!(sliced.output(), whole.output());
    assert_eq!(whole.output(), &vec![6u8]);
}

#[test]
fn an_endless_loop_keeps_running() {
    let mut computer = Computer::new();
    assert_eq!(computer.interpreter("+[]", 10_000), Ok(Status::Running));
    assert_eq!(computer.execute(10_000), Ok(Status::Running));
    assert_eq!(computer.memory()[0], 1);
}

#[test]
fn zero_budget_takes_no_step() {
    let mut computer = Computer::new();
    assert_eq!(computer.interpreter("+", 0), Ok(Status::Running));
    assert_eq!(computer.memory()[0], 0);
    assert_eq!(computer.execute(1), Ok(Status::Finished));
    assert_eq!(computer.memory()[0], 1);
}

#[test]
fn reading_takes_the_bytes_in_order() {
    let mut computer = Computer::new();
    computer.feed(&[65, 66]);
    assert_eq!(computer.interpreter(",.>,.", 100), Ok(Status::Finished));
    assert_eq!(computer.output(), &vec![65u8, 66]);
    assert_eq!(computer.memory()[0], 65);
    assert_eq!(computer.memory()[1], 66);
}

#[test]
fn reading_overwrites_the_cell() {
    let mut computer = Computer::new();
    computer.feed(&[3]);
    assert_eq!(computer.interpreter("+++++,", 100), Ok(Status::Finished));
    assert_eq!(computer.memory()[0], 3);
}

#[test]
fn reading_with_nothing_waiting_awaits_input() {
    let mut computer = Computer::new();
    assert_eq!(computer.interpreter("+,.", 100), Ok(Status::AwaitingInput));
    assert_eq!(computer.memory()[0], 1);
    assert_eq!(computer.execute(100), Ok(Status::AwaitingInput));
    computer.feed(&[9]);
    assert_eq!(computer.execute(100), Ok(Status::Finished));
    assert_eq!(computer.output(), &vec![9u8]);
}

#[test]
fn reading_past_the_end_of_input_stores_zero() {
    let mut computer = Computer::new();
    computer.feed(&[5]);
    computer.close_input();
    assert_eq!(computer.interpreter(",>+,", 100), Ok(Status::Finished));
    assert_eq!(computer.memory()[0], 5);
    assert_eq!(computer.memory()[1], 0);
}

#[test]
fn feeding_twice_queues_behind() {
    let mut computer = Computer::new();
    computer.feed(&[1]);
    computer.feed(&[2, 3]);
    assert_eq!(computer.interpreter(",>,>,", 100), Ok(Status::Finished));
    assert_eq!(&computer.memory()[0..3], &[1u8, 2, 3]);
}

#[test]
fn echo_until_zero() {
    let mut computer = Computer::new();
    computer.feed(b"hi");
    computer.close_input();
    assert_eq!(computer.interpreter(",[.,]", 1_000), Ok(Status::Finished));
    assert_eq!(computer.output(), &b"hi".to_vec());
}

#[test]
fn taking_the_output_empties_it() {
    let mut computer = Computer::new();
    assert_eq!(computer.interpreter("+.+.", 2), Ok(Status::Running));
    assert_eq!(computer.take_output(), vec![1u8]);
    assert!(computer.output().is_empty());
    assert_eq!(computer.execute(100), Ok(Status::Finished));
    assert_eq!(computer.take_output(), vec![2u8]);
    assert_eq!(computer.take_output(), Vec::<u8>::new());
}

#[test]
fn faulty_source_still_runs_what_parsed() {
    let mut computer = Computer::new();
    assert_eq!(computer.interpreter("+.]+.[+", 100), Ok(Status::Finished));
    assert_eq!(computer.output(), &vec![1u8, 2]);
    assert_eq!(
        computer.diagnostics(),
        &vec![
            ParseDiagnostic::LoopEndWithoutStart(2),
            ParseDiagnostic::LoopStartWithoutEnd(5),
        ]
    );
}

#[test]
fn unterminated_loop_alone_runs_nothing() {
    let mut computer = Computer::new();
    assert_eq!(computer.interpreter("[+", 100), Ok(Status::Finished));
    assert_eq!(computer.memory()[0], 0);
    assert_eq!(
        computer.diagnostics(),
        &vec![ParseDiagnostic::LoopStartWithoutEnd(0)]
    );
}

#[test]
fn a_second_program_runs_on_the_tape_as_it_stands() {
    let mut computer = Computer::new();
    assert_eq!(computer.interpreter("+++>", 100), Ok(Status::Finished));
    assert_eq!(computer.interpreter("+<.", 100), Ok(Status::Finished));
    assert_eq!(computer.memory()[0], 3);
    assert_eq!(computer.memory()[1], 1);
    assert_eq!(computer.output(), &vec![3u8]);
    assert!(computer.diagnostics().is_empty());
}

#[test]
fn a_loaded_tree_runs_like_its_source() {
    let mut computer = Computer::new();
    computer.load(vec![
        OpCode::Increment,
        OpCode::Increment,
        OpCode::Loop(vec![
            OpCode::PtrIncrement,
            OpCode::Increment,
            OpCode::PtrDecrement,
            OpCode::Decrement,
        ]),
        OpCode::PtrIncrement,
        OpCode::Write,
    ]);
    assert_eq!(computer.status(), Ok(Status::Running));
    assert_eq!(computer.execute(1_000), Ok(Status::Finished));
    assert_eq!(computer.output(), &vec![2u8]);
}

#[test]
fn loading_clears_the_faults_on_record() {
    let mut computer = Computer::new();
    assert_eq!(computer.interpreter("]", 10), Ok(Status::Finished));
    assert_eq!(computer.diagnostics().len(), 1);
    computer.load(vec![OpCode::Increment]);
    assert!(computer.diagnostics().is_empty());
    assert_eq!(computer.step(), Ok(Status::Running));
    assert_eq!(computer.step(), Ok(Status::Finished));
    assert_eq!(computer.memory()[0], 1);
}

#[test]
fn step_reports_the_state_before_the_step() {
    let mut computer = Computer::new();
    computer.load(vec![OpCode::Loop(vec![OpCode::Decrement]), OpCode::Write]);
    computer.feed(&[]);
    assert_eq!(computer.step(), Ok(Status::Running));
    assert_eq!(computer.step(), Ok(Status::Running));
    assert_eq!(computer.output(), &vec![0u8]);
    assert_eq!(computer.step(), Ok(Status::Finished));
    assert_eq!(computer.step(), Ok(Status::Finished));
}

#[test]
fn multiplication_by_nested_loops() {
    let mut computer = Computer::new();
    let status = computer.interpreter("++++[>+++[>++<-]<-]>>.", 10_000);
    assert_eq!(status, Ok(Status::Finished));
    assert_eq!(computer.output(), &vec![24u8]);
}

#[test]
fn a_failed_input_fails_the_read() {
    let mut computer = Computer::new();
    computer.fail_input(String::from("broken pipe"));
    let status = computer.interpreter("+,+", 100);
    assert_eq!(
        status,
        Err(InterpreterError::StdinError(String::from("broken pipe")))
    );
    assert_eq!(computer.memory()[0], 1);
    assert_eq!(
        computer.execute(100),
        Err(InterpreterError::StdinError(String::from("broken pipe")))
    );
}

#[test]
fn bytes_that_wait_are_read_before_a_failure_shows() {
    let mut computer = Computer::new();
    computer.feed(&[4]);
    computer.fail_input(String::from("gone"));
    let status = computer.interpreter(",>,", 100);
    assert_eq!(status, Err(InterpreterError::StdinError(String::from("gone"))));
    assert_eq!(computer.memory()[0], 4);
    assert_eq!(computer.pointer(), 1);
}

#[test]
fn a_failure_while_waiting_ends_the_run() {
    let mut computer = Computer::new();
    assert_eq!(computer.interpreter("[-],.", 100), Ok(Status::AwaitingInput));
    computer.fail_input(String::from("closed by peer"));
    assert_eq!(
        computer.execute(100),
        Err(InterpreterError::StdinError(String::from("closed by peer")))
    );
    assert!(computer.output().is_empty());
}

#[test]
fn a_program_that_never_reads_never_sees_the_failure() {
    let mut computer = Computer::new();
    computer.fail_input(String::from("gone"));
    assert_eq!(computer.interpreter("+.", 100), Ok(Status::Finished));
    assert_eq!(computer.output(), &vec![1u8]);
}

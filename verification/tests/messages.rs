use rainfuck::text::decimal_text;
use rainfuck::{InterpreterError, ParseDiagnostic};

#[test]
fn decimal_of_single_digits() {
    for (n, text) in ["0", "1", "2", "3", "4", "5", "6", "7", "8", "9"].iter().enumerate() {
        assert_eq!(decimal_text(n), *text);
    }
}

#[test]
fn decimal_of_larger_numbers() {
    assert_eq!(decimal_text(10), "10");
    assert_eq!(decimal_text(42), "42");
    assert_eq!(decimal_text(100), "100");
    assert_eq!(decimal_text(12_345), "12345");
    assert_eq!(decimal_text(907_060), "907060");
    assert_eq!(decimal_text(usize::MAX), format!("{}", usize::MAX));
}

#[test]
fn memory_overflow_message() {
    assert_eq!(InterpreterError::MemoryOverflow.message(), "Error: Memory overflow");
}

#[test]
fn pointer_overflow_message() {
    assert_eq!(InterpreterError::PointerOverflow.message(), "Error: Pointer overflow");
}

#[test]
fn source_path_message() {
    let error = InterpreterError::SourcePathError(String::from("prog.bf"));
    assert_eq!(error.message(), "Error: Could not read source code from prog.bf");
}

#[test]
fn parse_code_message() {
    let error = InterpreterError::ParseCodeError(String::from("loop ending at #3 has no start"));
    assert_eq!(
        error.message(),
        "Error: Could not interpret source code, loop ending at #3 has no start"
    );
}

#[test]
fn stdin_message() {
    let error = InterpreterError::StdinError(String::from("broken pipe"));
    assert_eq!(error.message(), "Error: Could not read from stdin, broken pipe");
}

#[test]
fn unmatched_close_description() {
    let fault = ParseDiagnostic::LoopEndWithoutStart(12);
    assert_eq!(fault.description(), "loop ending at #12 has no start");
}

#[test]
fn unmatched_open_description() {
    let fault = ParseDiagnostic::LoopStartWithoutEnd(0);
    assert_eq!(fault.description(), "loop starting at #0 has no end");
}

#[test]
fn a_fault_becomes_a_parse_error() {
    let fault = ParseDiagnostic::LoopStartWithoutEnd(205);
    assert_eq!(
        fault.to_error(),
        InterpreterError::ParseCodeError(String::from("loop starting at #205 has no end"))
    );
    assert_eq!(
        fault.to_error().message(),
        "Error: Could not interpret source code, loop starting at #205 has no end"
    );
}

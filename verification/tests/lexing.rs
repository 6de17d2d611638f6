use rainfuck::lexer::classify;
use rainfuck::{Computer, RawCode};

#[test]
fn letters_between_instructions_are_ignored() {
    let mut computer = Computer::new();
    assert_eq!(computer.lexer("a+b"), vec![RawCode::Increment]);
}

#[test]
fn every_instruction_character_has_its_token() {
    let mut computer = Computer::new();
    assert_eq!(
        computer.lexer("><+-.,[]"),
        vec![
            RawCode::PtrIncrement,
            RawCode::PtrDecrement,
            RawCode::Increment,
            RawCode::Decrement,
            RawCode::Write,
            RawCode::Read,
            RawCode::LoopBegin,
            RawCode::LoopEnd,
        ]
    );
}

#[test]
fn empty_source_has_no_tokens() {
    let mut computer = Computer::new();
    assert_eq!(computer.lexer(""), Vec::<RawCode>::new());
}

#[test]
fn whitespace_digits_and_newlines_are_dropped() {
    let mut computer = Computer::new();
    assert_eq!(
        computer.lexer(" 1 +\n\t2 - \r\n"),
        vec![RawCode::Increment, RawCode::Decrement]
    );
}

#[test]
fn characters_beyond_ascii_are_dropped() {
    let mut computer = Computer::new();
    assert_eq!(
        computer.lexer("é>日本<ß"),
        vec![RawCode::PtrIncrement, RawCode::PtrDecrement]
    );
}

#[test]
fn tokens_keep_the_order_of_the_source() {
    let mut computer = Computer::new();
    assert_eq!(
        computer.lexer("[x-y]z."),
        vec![
            RawCode::LoopBegin,
            RawCode::Decrement,
            RawCode::LoopEnd,
            RawCode::Write,
        ]
    );
}

#[test]
fn classify_knows_the_eight_characters_only() {
    assert_eq!(classify('>'), Some(RawCode::PtrIncrement));
    assert_eq!(classify('<'), Some(RawCode::PtrDecrement));
    assert_eq!(classify('+'), Some(RawCode::Increment));
    assert_eq!(classify('-'), Some(RawCode::Decrement));
    assert_eq!(classify('.'), Some(RawCode::Write));
    assert_eq!(classify(','), Some(RawCode::Read));
    assert_eq!(classify('['), Some(RawCode::LoopBegin));
    assert_eq!(classify(']'), Some(RawCode::LoopEnd));
    assert_eq!(classify('a'), None);
    assert_eq!(classify(' '), None);
    assert_eq!(classify('0'), None);
}

#[test]
fn lexing_leaves_the_computer_as_it_is() {
    let mut computer = Computer::new();
    computer.feed(&[1, 2]);
    let _ = computer.lexer("+++");
    assert_eq!(computer.pointer(), 0);
    assert!(computer.memory().iter().all(|cell| *cell == 0));
    assert!(computer.output().is_empty());
}

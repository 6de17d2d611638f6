//! An interpreter for an eight-instruction tape language.
//!
//! Source text is lexed into instruction tokens, the tokens are parsed into a
//! tree of operations, and the tree is run by a small abstract machine over a
//! bounded tape of byte cells. Each stage is specified by a mathematical model
//! and proved against it.

pub mod computer;
pub mod errors;
pub mod laws;
pub mod lexer;
pub mod machine;
pub mod parser;
pub mod semantics;
pub mod text;

pub use computer::Computer;
pub use errors::InterpreterError;
pub use lexer::RawCode;
pub use machine::{Machine, Status, Store, TAPE_SIZE};
pub use parser::{OpCode, Operation, ParseDiagnostic};

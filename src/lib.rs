//! An interpreter for the eight-instruction tape language: loop matching,
//! a byte tape under a single cursor, and source positions for diagnostics.

pub mod engine;
pub mod error;
pub mod jump;
pub mod position;
pub mod text;

pub use engine::{ArithPolicy, Interpreter, RunEnd, RunResult, Step, TAPE_SIZE};
pub use error::{ExecError, Location};
pub use jump::build_jump_table;
pub use position::get_line_char;
pub use text::{cell_from_line, chars_of};

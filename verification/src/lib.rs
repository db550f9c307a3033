//! A verified compiler and interpreter for a tiny eight-instruction tape
//! language.
//!
//! Source text is translated into a dense operation sequence (comment bytes
//! dropped, adjacent additions and movements merged) together with a jump
//! table that resolves every loop boundary, and the result is executed
//! against a fixed-length byte tape. Input and output are passed as plain
//! byte sequences, so the whole pipeline is a pure, verified function.

pub mod brackets;
pub mod equiv;
pub mod interp;
pub mod machine;
pub mod translate;

pub use brackets::{build_jump_table, TranslateError};
pub use interp::{interpret, run, Outcome};
pub use machine::{Op, EOF_BYTE, TAPE_LEN};
pub use translate::{parse_ops, translate, Program};

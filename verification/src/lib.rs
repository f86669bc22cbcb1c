//! A source-level debugger engine for Windows batch scripts.
//!
//! The engine preprocesses raw script text into logical lines with a
//! physical-to-logical mapping, splits composite command lines, tracks
//! breakpoints, variables and a call stack, and drives scripted control
//! flow (labels, CALL / EXIT /B, GOTO, multi-line blocks, SETLOCAL
//! scoping) as a verified state machine.  The persistent shell child,
//! all file and pipe handling, and the editor protocol framing live
//! outside this crate; the library hands them plain values and receives
//! plain values back.

pub mod breakpoints;
pub mod commands;
pub mod context;
pub mod dap;
pub mod interp;
pub mod labels;
pub mod preprocess;
pub mod session;
pub mod text;
pub mod vars;

use vstd::prelude::*;

verus! {

/// Characters the engine treats as whitespace when trimming line text.
pub open spec fn is_space_char(c: char) -> bool {
    c == ' ' || c == '\t' || c == '\r' || c == '\n'
}

/// Executable twin of `is_space_char`.
pub fn is_space(c: char) -> (r: bool)
    ensures
        r == is_space_char(c),
{
    c == ' ' || c == '\t' || c == '\r' || c == '\n'
}

} // verus!

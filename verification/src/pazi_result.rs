//! Process-level result codes reported back to the shell integration.

use vstd::prelude::*;

verus! {

/// Outcome of one invocation, as reported to the calling shell.
///
/// `SuccessDirectory` means the printed output is a directory the shell
/// should change into, while `Success` means plain output.  `ErrorNoInput`
/// distinguishes "the user declined to choose" from a real failure.
pub enum PaziResult {
    Success,
    SuccessDirectory,
    Error,
    ErrorNoInput,
}

impl PaziResult {
    /// Classic exit code: zero for the two success outcomes, one otherwise.
    pub fn exit_code(self) -> (r: i32)
        ensures
            r == (match self {
                PaziResult::Success | PaziResult::SuccessDirectory => 0int,
                PaziResult::Error | PaziResult::ErrorNoInput => 1int,
            }),
    {
        match self {
            PaziResult::Success | PaziResult::SuccessDirectory => 0,
            PaziResult::Error | PaziResult::ErrorNoInput => 1,
        }
    }

    /// Extended exit codes let the shell hook tell "print this" apart from
    /// "change directory to this" without parsing the output.
    pub fn extended_exit_code(self) -> (r: i32)
        ensures
            r == (match self {
                PaziResult::Success => 90int,
                PaziResult::SuccessDirectory => 91int,
                PaziResult::Error => 92int,
                PaziResult::ErrorNoInput => 93int,
            }),
    {
        match self {
            PaziResult::Success => 90,
            PaziResult::SuccessDirectory => 91,
            PaziResult::Error => 92,
            PaziResult::ErrorNoInput => 93,
        }
    }
}

} // verus!

//! The commands of the prompt: lines that begin with a dot and are no SQL.

use crate::text::str_eq;
use vstd::prelude::*;

verus! {

/// A command of the prompt.
#[derive(Clone, Copy, Debug, PartialEq, Eq)]
pub enum CliCommand {
    /// Leave the prompt.
    Exit,
}

/// The command that `input` spells, if it spells one.
pub fn parse_command(input: &str) -> (command: Option<CliCommand>)
    ensures
        command == (if input@ == ".exit"@ {
            Some(CliCommand::Exit)
        } else {
            None
        }),
{
    if str_eq(input, ".exit") {
        Some(CliCommand::Exit)
    } else {
        None
    }
}

} // verus!

//! What is handed to `ipmitool`, and what comes back.

use vstd::prelude::*;

verus! {

/// What came of a command.
#[derive(Debug)]
pub enum CommandOutcome {
    /// It could not be started, for the given reason.
    NotStarted(String),
    /// It ended: whether with success, the exit status in words, and what it
    /// wrote.
    Exited { success: bool, status: String, stdout: Vec<u8>, stderr: Vec<u8> },
}

impl CommandOutcome {
    /// Whether the command was run with success.
    pub open spec fn succeeded(self) -> bool {
        match self {
            CommandOutcome::NotStarted(_) => false,
            CommandOutcome::Exited { success, .. } => success,
        }
    }
}

/// The arguments as texts.
pub open spec fn argument_texts(arguments: Seq<String>) -> Seq<Seq<char>> {
    Seq::new(arguments.len(), |i: int| arguments[i]@)
}

/// A command succeeded exactly where it was started and ended with success.
pub proof fn law_succeeded(outcome: CommandOutcome)
    ensures
        outcome.succeeded() <==> outcome matches CommandOutcome::Exited { success: true, .. },
{
}

} // verus!

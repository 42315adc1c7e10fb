//! The request of the tool that updates branches, and its validation.

use vstd::prelude::*;
use vstd::string::StringExecFns;

verus! {

/// A request to update the commits of the current branch from the prompt
/// that produced the changes and a summary of them.
#[derive(Clone, Debug, PartialEq, Eq)]
pub struct GitButlerUpdateBranchesRequest {
    /// The exact prompt that the user gave to generate these changes.
    pub full_prompt: String,
    /// A short bullet list of important things that were changed in the
    /// codebase and why.
    pub changes_summary: String,
    /// The full root path of the Git project the agent is actively working in.
    pub current_working_directory: String,
}

/// Why a request is invalid.
#[derive(Clone, Copy, Debug, PartialEq, Eq, Structural)]
pub enum RequestError {
    EmptyChangesSummary,
    EmptyFullPrompt,
    EmptyCurrentWorkingDirectory,
}

/// What is wrong with a request, if anything: the first empty field, the
/// summary before the prompt and the prompt before the directory.
pub open spec fn request_fault(summary: Seq<char>, prompt: Seq<char>, directory: Seq<char>) -> Option<RequestError> {
    if summary.len() == 0 {
        Some(RequestError::EmptyChangesSummary)
    } else if prompt.len() == 0 {
        Some(RequestError::EmptyFullPrompt)
    } else if directory.len() == 0 {
        Some(RequestError::EmptyCurrentWorkingDirectory)
    } else {
        None
    }
}

/// The message of an error.
pub open spec fn message_of(e: RequestError) -> Seq<char> {
    match e {
        RequestError::EmptyChangesSummary => "ChangesSummary cannot be empty"@,
        RequestError::EmptyFullPrompt => "FullPrompt cannot be empty"@,
        RequestError::EmptyCurrentWorkingDirectory => "CurrentWorkingDirectory cannot be empty"@,
    }
}

impl RequestError {
    /// The message that goes to the caller.
    pub fn message(&self) -> (r: String)
        ensures
            r@ == message_of(*self),
    {
        match self {
            RequestError::EmptyChangesSummary => String::from_str("ChangesSummary cannot be empty"),
            RequestError::EmptyFullPrompt => String::from_str("FullPrompt cannot be empty"),
            RequestError::EmptyCurrentWorkingDirectory => String::from_str(
                "CurrentWorkingDirectory cannot be empty",
            ),
        }
    }
}

impl GitButlerUpdateBranchesRequest {
    /// Checks that no field is empty.
    pub fn validate(&self) -> (r: Result<(), RequestError>)
        ensures
            r == (match request_fault(self.changes_summary@, self.full_prompt@, self.current_working_directory@) {
                Some(e) => Err::<(), RequestError>(e),
                None => Ok::<(), RequestError>(()),
            }),
    {
        if self.changes_summary.as_str().is_empty() {
            return Err(RequestError::EmptyChangesSummary);
        }
        if self.full_prompt.as_str().is_empty() {
            return Err(RequestError::EmptyFullPrompt);
        }
        if self.current_working_directory.as_str().is_empty() {
            return Err(RequestError::EmptyCurrentWorkingDirectory);
        }
        Ok(())
    }
}

} // verus!

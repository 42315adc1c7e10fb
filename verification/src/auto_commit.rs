//! The texts that ask an assistant to group changes into commits.

use vstd::prelude::*;
use vstd::string::StringExecFns;

verus! {

/// The standing instructions.
pub open spec fn system_text() -> Seq<char> {
    "\n        You are an expert in grouping and committing file changes into logical units for version control.\n        When given the status of a project, you should be able to identify related changes and suggest how they should be grouped into commits.\n        It's also important to suggest a branch for each group of changes.\n        The branch can be either an existing branch or a new one.\n        In order to determine the branch, you should consider diffs, the assignments and the dependency locks, if any.\n        Before committing, you should create the branches that are needed for the changes, if they don't already exist.\n        "@
}

/// The request up to the project status.
pub open spec fn prompt_head() -> Seq<char> {
    "\n        Please, figure out how to group the file changes into logical units for version control and commit them.\n        Follow these steps:\n        1. Take a look at the exisiting branches (stack heads) and the file changes. You can see all this information in the **project status** below.\n        2. Determine which are the related changes that should be grouped together. You can do this by looking at the diffs, assignments, and dependency locks, if any.\n        3. Determine if any new branches need to be created. If so, create them using the provided tool.\n        4. For each group of changes, create a commit (using the provided tool) with a detailed summary of the changes in the group (not the intention, but an overview of the actual changes made and why they are related).\n        5. When you're done, only send the message 'done'\n\n        Here is the project status:\n        <project_status>\n                "@
}

/// The request after the project status.
pub open spec fn prompt_tail() -> Seq<char> {
    "\n        </project_status>\n    "@
}

/// The standing instructions.
pub fn system_message() -> (r: &'static str)
    ensures
        r@ == system_text(),
{
    "\n        You are an expert in grouping and committing file changes into logical units for version control.\n        When given the status of a project, you should be able to identify related changes and suggest how they should be grouped into commits.\n        It's also important to suggest a branch for each group of changes.\n        The branch can be either an existing branch or a new one.\n        In order to determine the branch, you should consider diffs, the assignments and the dependency locks, if any.\n        Before committing, you should create the branches that are needed for the changes, if they don't already exist.\n        "
}

/// The request to group the changes of a project into commits, with the
/// project status, as serialised by the caller, in its place.
pub fn commit_prompt(serialized_status: &str) -> (r: String)
    ensures
        r@ == prompt_head() + serialized_status@ + prompt_tail(),
{
    let mut prompt = String::from_str("\n        Please, figure out how to group the file changes into logical units for version control and commit them.\n        Follow these steps:\n        1. Take a look at the exisiting branches (stack heads) and the file changes. You can see all this information in the **project status** below.\n        2. Determine which are the related changes that should be grouped together. You can do this by looking at the diffs, assignments, and dependency locks, if any.\n        3. Determine if any new branches need to be created. If so, create them using the provided tool.\n        4. For each group of changes, create a commit (using the provided tool) with a detailed summary of the changes in the group (not the intention, but an overview of the actual changes made and why they are related).\n        5. When you're done, only send the message 'done'\n\n        Here is the project status:\n        <project_status>\n                ");
    prompt.append(serialized_status);
    prompt.append("\n        </project_status>\n    ");
    prompt
}

} // verus!

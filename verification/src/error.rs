//! Error types.

use vstd::prelude::*;

verus! {

/// Failed to validate a value for use as a name.
#[derive(Debug, Clone, Copy, PartialEq, Eq, Structural)]
pub enum ValidateName {
    /// The string is empty.
    Empty,
    /// The starting character is invalid.
    InvalidStart(char),
    /// A continuation character is invalid: its byte offset and the character.
    InvalidContinue(usize, char),
}

} // verus!

verus! {

/// An error within the Engage file.
pub enum FileError {
    /// The `command` list of the named process was empty.
    EmptyCommand(crate::name::Name),
}

} // verus!

verus! {

/// An error building the graph.
pub enum BuildGraph {
    /// A process depends on a nonexistent process.
    DependencyNotFound {
        /// The process in question.
        process: crate::name::Name,
        /// The nonexistent process in the `before` or `after` list.
        dependency: crate::name::Name,
        /// The list it is in.
        edge_kind: crate::graph::EdgeKind,
    },
    /// A dependency cycle: the names of the processes of a strongly connected
    /// component that has more than one process or a process that depends on
    /// itself.
    DependencyCycle(Vec<crate::name::Name>),
}

} // verus!

verus! {

/// The process was not found.
pub struct ProcessNotFound(pub crate::name::Name);

} // verus!

verus! {

/// Error details.
pub struct Details {
    /// A recommendation for resolving the error.
    pub help: Option<String>,
}

impl Details {
    /// An empty collection of details.
    pub fn empty() -> (r: Details)
        ensures
            r.help is None,
    {
        Details { help: None }
    }

    /// Set a recommendation for resolving the error.
    pub fn help(self, help: String) -> (r: Details)
        ensures
            r.help == Some(help),
    {
        let mut d = self;
        d.help = Some(help);
        d
    }
}

} // verus!

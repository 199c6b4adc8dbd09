//! The commands of the command-line client, as plain values.  Parsing the
//! command line into them is the program's work.
use vstd::prelude::*;

verus! {

/// A parsed command line.
#[derive(Debug, Clone, PartialEq, Eq)]
pub struct Cli {
    pub command: Commands,
}

/// The client's commands.
#[derive(Debug, Clone, PartialEq, Eq)]
pub enum Commands {
    /// Create the repository's directories and files.
    Init,
    /// Stage a file.
    Add { path: String },
    /// Record the staged files as a commit.
    Commit { message: String },
    /// Show staged, unstaged and untracked files.
    Status,
    /// Print a stored object.
    CatObject { hash: String },
    /// Work with leaves.
    Leaf { command: LeafCommands },
}

/// The commands on leaves.
#[derive(Debug, Clone, PartialEq, Eq)]
pub enum LeafCommands {
    /// Create a leaf at the current commit and switch to it.
    Create { name: String },
    /// List the leaves of all users.
    List,
    /// Merge a leaf into the current branch.
    Merge { name: String },
}

} // verus!

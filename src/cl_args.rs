//! The commands the repository tool understands.
use vstd::prelude::*;

verus! {

/// A parsed command line.
pub struct NyxCli {
    pub command: Option<NyxCommand>,
}

/// One command of the tool.
pub enum NyxCommand {
    /// Creates an empty repository.
    Init,
    /// Stages one or many files.
    Add { paths: Vec<String> },
    /// Records the staged files as a commit.
    Commit { message: String },
    /// Lists untracked, modified and staged files.
    Status,
    /// Shows the commit history.
    Log,
    /// Switches the working directory to a commit.
    Checkout { hash: String },
    /// Computes a file's object hash and stores it as a blob.
    HashObject { path: String },
    /// Prints the content of a stored object.
    CatFile { hash: String },
    /// Prints the index.
    LsFile,
}

impl NyxCommand {
    /// Every command but `Init` works inside an existing repository.
    pub fn requires_repository(&self) -> (r: bool)
        ensures
            r == !(self is Init),
    {
        match self {
            NyxCommand::Init => false,
            _ => true,
        }
    }
}

} // verus!

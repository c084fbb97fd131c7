//! The commands a front end can ask of the store.
use vstd::prelude::*;

verus! {

/// One command with its arguments.
#[derive(Debug, Clone)]
pub enum Commands {
    Init { path: String },
    Commit { message: String },
    Branch { name: String, delete: bool },
    Query { sql: String },
    Sql { command: String },
    ImportCsv { file: String, table: String },
    ShowTable { table_name: String, commit_hash: Option<String> },
    Revert { commit_hash: String },
    Diff { from: String, to: String },
    History { limit: Option<usize> },
    Checkout { target: String },
    Log { verbose: bool },
    BranchList { verbose: bool },
    Merge { branch: String },
}

/// A parsed command line.
#[derive(Debug, Clone)]
pub struct CommandsWrapper {
    pub command: Commands,
}

} // verus!

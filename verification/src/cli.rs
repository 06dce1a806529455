use vstd::prelude::*;

verus! {

/// The command-line surface: one subcommand per invocation.
pub struct Cli {
    pub command: Commands,
}

/// The commands the tool accepts.
pub enum Commands {
    Login,
    Logout,
    Init,
    List,
    Add,
    Update,
    View { query: String },
    Delete { id: String },
    ChangePwd,
}

} // verus!

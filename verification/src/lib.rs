use vstd::prelude::*;

pub mod change;
pub mod config;
pub mod merge;
pub mod naming;
pub mod section;
pub mod text;

verus! {

/// The parsed command line: the run flags, the configuration file path (as
/// text), and the chosen subcommand.
#[derive(Debug)]
pub struct TinyChangeArgs {
    pub non_interactive: bool,
    pub config: Option<String>,
    pub command: Option<TinyChangeSubcommand>,
}

/// Which subcommand runs: create a fragment, merge the fragments, or write a
/// fresh configuration.
#[derive(Debug, Clone)]
pub enum TinyChangeSubcommand {
    New(NewArgs),
    Merge(merge::MergeArgs),
    Init,
}

/// Options of the `new` subcommand: the fields a fragment needs, each
/// optional on the command line.
#[derive(Debug, Default, Clone)]
pub struct NewArgs {
    pub kind: Option<String>,
    pub message: Option<String>,
    pub author: Option<String>,
}

} // verus!

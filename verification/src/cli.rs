//! The command line: global options, the options of a bare run, and the
//! subcommands with theirs.
use vstd::prelude::*;

use crate::output::OutputFormat;

verus! {

/// A parsed command line.
#[derive(Debug)]
pub struct Cli {
    pub command: Option<Commands>,
    pub global_args: GlobalArgs,
    pub root_args: RootArgs,
}

/// Options of a run without subcommand, which injects as the config file says.
#[derive(Debug)]
pub struct RootArgs {
    /// Preview changes.
    pub dry_run: bool,
    /// Print the diff of old and new contents.
    pub diff: bool,
}

/// Options that every subcommand takes.
#[derive(Debug)]
pub struct GlobalArgs {
    /// Path to the configuration file (`injm.toml` by default).
    pub config: Option<String>,
    /// Files to exclude (globs).
    pub exclude: Vec<String>,
    /// Do not exclude the files that `.gitignore` ignores.
    pub no_gitignore: bool,
}

#[derive(Debug)]
pub enum Commands {
    /// Inject stdin or input blocks into output files.
    Inject(InjectArgs),
    /// List marker blocks.
    List(ListArgs),
    /// Check whether marker blocks are synchronized.
    Check(CheckArgs),
}

#[derive(Debug)]
pub struct InjectArgs {
    /// Files that hold input blocks; stdin is read when there are none.
    pub input: Vec<String>,
    /// Files to inject into.
    pub output: Vec<String>,
    /// Preview the injected results.
    pub dry_run: bool,
    /// Print the diff between original and injected files.
    pub diff: bool,
    /// Ids that the stdin content provides.
    pub id: Vec<Option<String>>,
}

#[derive(Debug)]
pub struct ListArgs {
    /// Files whose marker blocks are listed (globs).
    pub files: Vec<String>,
    pub format: OutputFormat,
}

#[derive(Debug)]
pub struct CheckArgs {
    /// Files to check (globs).
    pub files: Vec<String>,
    /// Print the diff between expected and unsynchronized blocks.
    pub diff: bool,
}

} // verus!

use vstd::prelude::*;

verus! {

/// How files are selected from patterns.
#[derive(Debug, Default)]
pub struct PatternParserOption {
    /// Keep files that `.gitignore` ignores.
    pub no_gitignore: bool,
    /// Directory whose `.gitignore` applies.
    pub cwd: String,
}

} // verus!

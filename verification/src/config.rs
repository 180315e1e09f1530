//! The settings of `injm.toml`.
use vstd::prelude::*;

verus! {

/// Input, output and exclude patterns from the configuration file; each is
/// empty when the file does not give it.
#[derive(Debug)]
pub struct GlobalConfig {
    pub input: Vec<String>,
    pub output: Vec<String>,
    pub exclude: Vec<String>,
}

impl Default for GlobalConfig {
    fn default() -> (c: GlobalConfig)
        ensures
            c.input@.len() == 0,
            c.output@.len() == 0,
            c.exclude@.len() == 0,
    {
        GlobalConfig { input: Vec::new(), output: Vec::new(), exclude: Vec::new() }
    }
}

} // verus!

//! The parts of a benchmark definition that running a benchmark needs.
use vstd::prelude::*;

verus! {

/// The name of a benchmark: its full name `group/local`, and its two parts.
#[derive(Clone, Debug)]
pub struct DefinitionName {
    pub full: String,
    pub group: String,
    pub local: String,
}

impl DefinitionName {
    /// The full name.
    pub fn as_str(&self) -> (r: &str)
        ensures
            r@ == self.full@,
    {
        self.full.as_str()
    }
}

/// How the patterns of a benchmark are compiled.
#[derive(Clone, Copy, Debug, Default, PartialEq, Eq, Structural)]
pub struct DefinitionOptions {
    pub case_insensitive: bool,
    pub unicode: bool,
}

/// One environment variable of a command.
#[derive(Clone, Debug)]
pub struct CommandEnv {
    pub name: String,
    pub value: String,
}

/// How an engine's runner is launched: its program, arguments, working
/// directory and environment.
#[derive(Clone, Debug)]
pub struct Command {
    pub cwd: Option<String>,
    pub bin: String,
    pub args: Vec<String>,
    pub envs: Vec<CommandEnv>,
}

} // verus!

//! `-v`/`-q`/config-file verbosity precedence: an explicit flag always wins over the
//! config file's default, and with nothing set anywhere the output is quiet. (`-v` and
//! `-q` together are refused on the command line.)

use vstd::prelude::*;

use crate::config::{lookup, Config, KEY_VERBOSE};

verus! {

/// The `-v`/`-q` state as parsed from the command line, before consulting config.
#[derive(Clone, Copy, Debug, PartialEq, Eq, Structural)]
pub enum VerbosityFlag {
    Verbose,
    Quiet,
    Unset,
}

/// Effective verbosity: `-v` > `-q` > config `verbose` default > off.
pub fn resolve(flag: VerbosityFlag, config: &Config) -> (v: bool)
    ensures
        v == match flag {
            VerbosityFlag::Verbose => true,
            VerbosityFlag::Quiet => false,
            VerbosityFlag::Unset => lookup(config@, KEY_VERBOSE@) == Some("true"@),
        },
{
    match flag {
        VerbosityFlag::Verbose => true,
        VerbosityFlag::Quiet => false,
        VerbosityFlag::Unset => match config.verbose() {
            Some(b) => b,
            None => false,
        },
    }
}

} // verus!

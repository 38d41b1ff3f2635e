//! The launcher's command-line options.

use vstd::prelude::*;

verus! {

/// What the command line asks for.
pub struct Args {
    /// The configuration file to read, if one is given.
    pub config: Option<String>,
    /// Run as a server that stays in the background.
    pub server: bool,
    /// Ask the running server to show or hide its window.
    pub toggle: bool,
}

} // verus!

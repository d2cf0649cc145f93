//! The command surface's data, as plain values: which command was asked for
//! and with what arguments. Reading the actual command line is left to the
//! program around the library.

use vstd::prelude::*;

use crate::obis::Obis;

verus! {

/// Arguments of the two conversion commands: the code to convert.
pub struct ObisArgs {
    pub code: Obis,
}

/// Arguments of the search command: the code to look for and the path of the
/// XML document to search in. The search itself is outside the core.
pub struct SearchArgs {
    pub code: Obis,
    pub path: String,
}

/// One command for `run` to dispatch on.
pub enum Commands {
    /// Force the hex style and render.
    Hex(ObisArgs),
    /// Force the decimal style and render.
    Dec(ObisArgs),
    /// Look a code up in an XML document; not implemented.
    Search(SearchArgs),
}

/// A whole invocation: just the command.
pub struct Cli {
    pub command: Commands,
}

} // verus!

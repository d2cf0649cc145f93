//! Command dispatch: what each command answers. Printing the answer, and the
//! process's exit status, belong to the program around the library.

use vstd::prelude::*;

use crate::args::Commands;
use crate::obis::{dec_display, hex_display};

verus! {

/// The line the given command prints: the code rendered in the style the
/// command forces, or nothing for the unimplemented search command.
pub fn run(command: Commands) -> (r: Option<String>)
    ensures
        match command {
            Commands::Hex(args) => r matches Some(s) && s@ == hex_display(args.code.code@),
            Commands::Dec(args) => r matches Some(s) && s@ == dec_display(args.code.code@),
            Commands::Search(_) => r is None,
        },
{
    match command {
        Commands::Hex(args) => {
            let mut code = args.code;
            code.convert_to_hex();
            Some(code.display())
        },
        Commands::Dec(args) => {
            let mut code = args.code;
            code.convert_to_dec();
            Some(code.display())
        },
        Commands::Search(_) => None,
    }
}

} // verus!

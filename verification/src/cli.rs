//! The command line: what the program is asked to do.
use vstd::prelude::*;

use crate::text::text_eq;

verus! {

/// What the command line asks for.
#[derive(Debug, Clone, PartialEq, Eq)]
pub enum Launch {
    /// The typing application, joining the given room if any.
    App(Option<String>),
    /// A race relay listening on the given address.
    Relay(String),
    Help,
    Version,
}

pub const DEFAULT_RELAY_ADDRESS: &'static str = "127.0.0.1:8787";

/// How the arguments (after the program name) are read: nothing starts the
/// application; `-h`/`--help` and `-V`/`--version`; `join <ROOM>`;
/// `relay [ADDRESS]`; anything else is refused.
pub open spec fn parsed(args: Seq<String>, r: Result<Launch, String>) -> bool {
    if args.len() == 0 {
        r matches Ok(Launch::App(None))
    } else if args.len() == 1 && (args[0]@ == "-h"@ || args[0]@ == "--help"@) {
        r matches Ok(Launch::Help)
    } else if args.len() == 1 && (args[0]@ == "-V"@ || args[0]@ == "--version"@) {
        r matches Ok(Launch::Version)
    } else if args.len() == 2 && args[0]@ == "join"@ {
        r matches Ok(Launch::App(Some(code))) && code@ == args[1]@
    } else if args.len() == 1 && args[0]@ == "relay"@ {
        r matches Ok(Launch::Relay(address)) && address@ == DEFAULT_RELAY_ADDRESS@
    } else if args.len() == 2 && args[0]@ == "relay"@ {
        r matches Ok(Launch::Relay(address)) && address@ == args[1]@
    } else {
        r matches Err(message) && message@ == "invalid arguments; use --help"@
    }
}

/// Reads the command-line arguments (without the program name).
pub fn parse_arguments(args: &Vec<String>) -> (r: Result<Launch, String>)
    ensures
        parsed(args@, r),
{
    if args.len() == 0 {
        return Ok(Launch::App(None));
    }
    let first = args[0].as_str();
    if args.len() == 1 {
        if text_eq(first, "-h") || text_eq(first, "--help") {
            return Ok(Launch::Help);
        }
        if text_eq(first, "-V") || text_eq(first, "--version") {
            return Ok(Launch::Version);
        }
        if text_eq(first, "relay") {
            return Ok(Launch::Relay(DEFAULT_RELAY_ADDRESS.to_owned()));
        }
    }
    if args.len() == 2 {
        if text_eq(first, "join") {
            return Ok(Launch::App(Some(args[1].clone())));
        }
        if text_eq(first, "relay") {
            return Ok(Launch::Relay(args[1].clone()));
        }
    }
    Err("invalid arguments; use --help".to_owned())
}

} // verus!

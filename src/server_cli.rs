//! The server's options, as plain values.

use vstd::prelude::*;

verus! {

/// The port the server listens on when none is given.
pub const DEFAULT_PORT: u16 = 7536;

pub struct Args {
    pub port: u16,
}

/// The server's options from the port given on the command line, if any.
pub fn parse(port: Option<u16>) -> (r: Args)
    ensures
        r.port == match port {
            Some(p) => p,
            None => DEFAULT_PORT,
        },
{
    match port {
        Some(p) => Args { port: p },
        None => Args { port: DEFAULT_PORT },
    }
}

} // verus!

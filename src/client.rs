//! The client's options and the checks it makes on the server's replies.

use vstd::prelude::*;
use crate::protocol::{ClientID, CommandView, Frame};

verus! {

pub struct Args {
    pub url: Option<String>,
    pub verbose: bool,
    pub command: SubCommand,
}

pub enum SubCommand {
    New { note: String },
    List,
}

/// The identifier that a handshake frame carries; `None` for any other frame.
pub fn expect_id(frame: Frame) -> (r: Option<ClientID>)
    ensures
        match frame@ {
            CommandView::Id(id) => r == Some(id),
            _ => r is None,
        },
{
    match frame.0 {
        crate::protocol::Command::Id(id) => Some(id),
        _ => None,
    }
}

/// The entries of a list frame; `None` for any other frame.
pub fn expect_list(frame: Frame) -> (r: Option<Vec<String>>)
    ensures
        match frame@ {
            CommandView::List(es) => r matches Some(v) && v@.map_values(|s: String| s@) == es,
            _ => r is None,
        },
{
    match frame.0 {
        crate::protocol::Command::List(v) => Some(v),
        _ => None,
    }
}

} // verus!

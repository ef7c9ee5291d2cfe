//! The companion client's command set, each command mapping onto one
//! request of the control channel.

use crate::Request;
use vstd::prelude::*;

verus! {

/// One client command. `Init` is a placeholder that sends nothing; `Next`
/// may render its answer relative to now instead of absolutely.
#[derive(Debug, Clone, Copy, PartialEq, Eq, Structural)]
pub enum Adthand {
    Init,
    Ping,
    Kill,
    Next { relative: bool },
    Waybar,
    All,
}

/// The request each command sends; `Init` sends none.
pub open spec fn request_of(cmd: Adthand) -> Option<Request> {
    match cmd {
        Adthand::Init => None,
        Adthand::Ping => Some(Request::Ping),
        Adthand::Kill => Some(Request::Kill),
        Adthand::Next { relative } => Some(Request::Next),
        Adthand::Waybar => Some(Request::Waybar),
        Adthand::All => Some(Request::All),
    }
}

impl Adthand {
    /// The request this command sends over the control channel.
    pub fn to_request(&self) -> (r: Option<Request>)
        ensures
            r == request_of(*self),
    {
        match self {
            Adthand::Init => None,
            Adthand::Ping => Some(Request::Ping),
            Adthand::Kill => Some(Request::Kill),
            Adthand::Next { relative } => Some(Request::Next),
            Adthand::Waybar => Some(Request::Waybar),
            Adthand::All => Some(Request::All),
        }
    }
}

} // verus!

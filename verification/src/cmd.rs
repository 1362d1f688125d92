use vstd::prelude::*;

verus! {

/// The commands a control plane sends, by their first byte.
pub enum RequestCmd {
    Ping,
    AddFlowEntry,
    ShowFlowEntry,
}

/// The answers the data plane gives, by their first byte.
pub enum ResponseCmd {
    SuccessMessage,
    ErrorMessage,
}

impl RequestCmd {
    /// The byte that names the command on the wire: its position in the list.
    pub open spec fn spec_code(&self) -> u8 {
        match self {
            RequestCmd::Ping => 0,
            RequestCmd::AddFlowEntry => 1,
            RequestCmd::ShowFlowEntry => 2,
        }
    }

    pub fn code(&self) -> (r: u8)
        ensures
            r == self.spec_code(),
    {
        match self {
            RequestCmd::Ping => 0,
            RequestCmd::AddFlowEntry => 1,
            RequestCmd::ShowFlowEntry => 2,
        }
    }
}

impl ResponseCmd {
    /// The byte that names the answer on the wire: its position in the list.
    pub open spec fn spec_code(&self) -> u8 {
        match self {
            ResponseCmd::SuccessMessage => 0,
            ResponseCmd::ErrorMessage => 1,
        }
    }

    pub fn code(&self) -> (r: u8)
        ensures
            r == self.spec_code(),
    {
        match self {
            ResponseCmd::SuccessMessage => 0,
            ResponseCmd::ErrorMessage => 1,
        }
    }
}

} // verus!

//! What a background job asks the program around it to do.

use crate::sudo::{Call, SudoCall};
use vstd::prelude::*;

verus! {

/// One step of a background job.  The job is handed a text when the step is done:
/// what the command wrote for `Read`, and an empty text for the others.
#[derive(Debug, PartialEq, Eq)]
pub enum Action {
    /// Run the command; its output and its outcome do not matter.
    Run(SudoCall),
    /// Run the command and hand its output to the job.
    Read(SudoCall),
    /// Wait that many seconds.
    Sleep(u64),
    /// Put a verified password into the credentials file.
    Save { ssid: String, password: String },
    /// Nothing is left to do.
    Done,
}

/// One step of a background job.
pub enum Deed {
    Run(Call),
    Read(Call),
    Sleep(u64),
    Save(Seq<char>, Seq<char>),
    Done,
}

impl View for Action {
    type V = Deed;

    open spec fn view(&self) -> Deed {
        match self {
            Action::Run(call) => Deed::Run(call@),
            Action::Read(call) => Deed::Read(call@),
            Action::Sleep(secs) => Deed::Sleep(*secs),
            Action::Save { ssid, password } => Deed::Save(ssid@, password@),
            Action::Done => Deed::Done,
        }
    }
}

/// The view of a step shows what it asks for.
pub proof fn law_action_view(call: SudoCall, secs: u64, ssid: String, password: String)
    ensures
        Action::Run(call)@ == Deed::Run(call@),
        Action::Read(call)@ == Deed::Read(call@),
        Action::Sleep(secs)@ == Deed::Sleep(secs),
        (Action::Save { ssid, password })@ == Deed::Save(ssid@, password@),
        Action::Done@ == Deed::Done,
{
}

} // verus!

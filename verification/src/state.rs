//! The application-facing state machine: the codec's host hands it the
//! events it receives (a dropped file path) and performs the action it
//! decides (encode that file). All I/O and windowing stay with the host.

use vstd::prelude::*;

verus! {

/// An event delivered by the host.
#[derive(Debug, Clone)]
pub enum Message {
    /// Nothing of interest happened.
    Idle,
    /// The user dropped a file; its path is carried.
    FileDropped(String),
}

/// What the host must do next.
#[derive(Debug, PartialEq, Eq, Structural)]
pub enum Action {
    /// Nothing.
    DoNothing,
    /// Read the file at the state's current path, encode its bytes, and
    /// persist the container.
    EncodeFile,
}

/// The application state: the path most recently selected.
#[derive(Debug)]
pub struct Apy {
    pub file_path: String,
}

impl Apy {
    /// A fresh state with no path selected.
    pub fn new() -> (r: Apy)
        ensures
            r.file_path@.len() == 0,
    {
        Apy { file_path: String::new() }
    }
}

/// Advance the state by one event and decide the action the host must
/// perform: a dropped file replaces the stored path and is encoded;
/// anything else changes nothing.
pub fn update(api: &mut Apy, message: Message) -> (r: Action)
    ensures
        match message {
            Message::FileDropped(p) => final(api).file_path@ == p@ && r == Action::EncodeFile,
            Message::Idle => final(api).file_path@ == old(api).file_path@
                && r == Action::DoNothing,
        },
{
    match message {
        Message::FileDropped(path) => {
            api.file_path = path;
            Action::EncodeFile
        },
        Message::Idle => Action::DoNothing,
    }
}

} // verus!

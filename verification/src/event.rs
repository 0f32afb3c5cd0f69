use vstd::prelude::*;

verus! {

/// The filesystem events that can be listened for.
#[derive(Clone, Copy, Debug, PartialEq, Eq, Structural)]
pub enum Event {
    /// A file was added to or removed from the directory.
    OnFileChange,
    /// A file was added to the directory.
    OnFileAdd,
    /// A file was removed from the directory.
    OnFileRemove,
}

impl Event {
    /// A change is found by comparing counts, which cannot tell an addition
    /// from a removal: only the undirected event is supported.
    pub open spec fn supported(self) -> bool {
        self is OnFileChange
    }

    /// Whether a listener can wait for this event.
    pub fn is_supported(&self) -> (yes: bool)
        ensures
            yes == self.supported(),
    {
        match self {
            Event::OnFileChange => true,
            Event::OnFileAdd => false,
            Event::OnFileRemove => false,
        }
    }
}

/// Why a listener gave up.
#[derive(Clone, Copy, Debug, PartialEq, Eq, Structural)]
pub enum ListenError {
    /// The watched path does not exist or cannot be listed.
    PathUnreadable,
    /// The requested event is one that listeners do not support.
    NotImplemented,
}

} // verus!

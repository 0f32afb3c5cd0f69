//! A filesystem listener.
//!
//! A [`Listener`] watches one directory, without descending into it, and runs a
//! caller's function once the number of files in it has changed. Each scan of
//! the directory is turned into plain [`Visit`] values, so that every decision
//! the listener takes is a verified function of the scans it has seen.

pub mod event;
pub mod laws;
pub mod listener;
pub mod scan;
pub mod watch;

pub use event::{Event, ListenError};
pub use listener::{Listener, ListenerView};
pub use scan::{scan, Visit, VisitView};
pub use watch::{dispatch, listen};

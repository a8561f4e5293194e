//! What the overlay asks of the event loop.

use vstd::prelude::*;

verus! {

/// An event that the overlay sends to the event loop.
#[derive(Clone, Copy, Debug, PartialEq, Eq, Structural)]
pub enum AppEvent {
    /// The overlay has changed and the window is to be drawn again.
    RequestRedraw,
}

} // verus!

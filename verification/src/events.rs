//! The input a scene reacts to.

use vstd::prelude::*;

verus! {

/// One input event, with pointer places in whole pixels from the top left
/// corner of the window.
#[derive(Clone, Copy, Debug, PartialEq, Eq, Structural)]
pub enum Event {
    /// The window was asked to close.
    Closed,
    /// The escape key went down.
    EscapePressed,
    /// The primary pointer button went down at `(x, y)`.
    MouseButtonPressed { x: i32, y: i32 },
    /// The primary pointer button came up at `(x, y)`.
    MouseButtonReleased { x: i32, y: i32 },
    /// The pointer moved to `(x, y)`.
    MouseMoved { x: i32, y: i32 },
    /// Anything else; no part of the game reacts to it.
    Other,
}

} // verus!

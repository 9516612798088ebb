//! Input and output event types.
use vstd::prelude::*;

verus! {

/// The kind of an input or output event.
#[derive(Debug, Clone, Copy, PartialEq, Eq, Structural)]
pub enum Kind {
    /// A key was pressed.
    Down,
    /// A key was released.
    Up,
    /// An analog axis moved; handled like a press that is never modified by
    /// other key presses.
    Axis,
}

/// An event: a keycode, what happened to it, and an analog value.
#[derive(Debug, Clone, Copy)]
pub struct Event<K> {
    pub keycode: K,
    pub kind: Kind,
    pub value: i16,
}

} // verus!

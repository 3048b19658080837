//! Input identifiers shared with an interactive consumer.

use vstd::prelude::*;

verus! {

/// A mouse button, windowing-system independent.
#[derive(Clone, Copy, PartialEq, Eq, Structural, Hash, Debug)]
pub enum MouseButton {
    Left,
    Right,
    Middle,
    Backward,
    Forward,
    Unknown,
}

} // verus!

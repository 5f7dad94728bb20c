//! The actions a user can ask for while the simulation runs.
//!
//! Reading the keyboard itself happens outside the library; these types
//! carry the decoded requests into the execution loop.

use vstd::prelude::*;

verus! {

/// A camera movement.
#[derive(Clone, Copy, PartialEq, Eq, Structural, Debug)]
pub enum Direction {
    Right,
    Left,
    Up,
    Down,
}

/// A camera zoom step.
#[derive(Clone, Copy, PartialEq, Eq, Structural, Debug)]
pub enum Zoom {
    In,
    Out,
}

/// One decoded user request.
#[derive(Clone, Copy, PartialEq, Eq, Structural, Debug)]
pub enum UserAction {
    TranslateCamera(Direction),
    ZoomCamera(Zoom),
    TogglePause,
    Quit,
    Nop,
}

} // verus!

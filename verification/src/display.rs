//! The rendering interface the execution loop draws through.
//!
//! Concrete backends (a terminal, a window) implement [`Display`]; the
//! default methods do nothing, so a backend only overrides what it needs.

use vstd::prelude::*;
use crate::camera::Image;

verus! {

/// A rendering backend: shows captured images and cleans up afterwards.
pub trait Display {
    /// Draws the captured image.
    fn render(&mut self, _image: &Image) {
    }

    /// Restores the output device when the simulation ends.
    fn clean(&mut self) {
    }
}

/// A backend that draws nothing, for headless runs.
#[derive(Default)]
pub struct DummyDisplay;

impl DummyDisplay {
    /// A fresh no-op display.
    pub fn new() -> (d: DummyDisplay) {
        DummyDisplay {  }
    }
}

impl Display for DummyDisplay {

}

} // verus!

//! Compose several LED-grid devices into one rectangular canvas.
//!
//! A layout places each device at an offset and a rotation, keeps one pixel
//! record per claimed global coordinate, and routes colors and button events
//! between the global grid and each device's own grid.

use vstd::prelude::*;

pub mod canvas;
pub mod launchpad_s;
pub mod midi_io;

pub use crate::canvas::layout::{CanvasLayout, LayoutDevice, MessageRouter, Rotation};
pub use crate::canvas::records::Pixel;
pub use crate::canvas::registration::{AddError, Overlap};
pub use crate::canvas::poller::CanvasLayoutPoller;
pub use crate::canvas::{Canvas, CanvasMessage, Color, UNIT};
pub use crate::launchpad_s as s;
pub use crate::midi_io::MidiError;

verus! {

/// A physical button of a grid device.
///
/// The top row holds eight round control buttons; below it lies a grid of
/// nine columns and eight rows, whose ninth column holds the scene buttons.
#[derive(Debug, Copy, Clone, Hash, PartialEq, Eq, Structural)]
pub enum Button {
    ControlButton { index: u8 },
    GridButton { x: u8, y: u8 },
}

impl Button {
    /// Whether `(x, y)` names a button in absolute coordinates, whose origin
    /// is the leftmost control button.
    pub open spec fn abs_in_range(x: u8, y: u8) -> bool {
        (y == 0 && x <= 7) || (1 <= y <= 8 && x <= 8)
    }

    /// The button that absolute coordinates `(x, y)` name.
    pub open spec fn spec_from_abs(x: u8, y: u8) -> Button {
        if y == 0 {
            Button::ControlButton { index: x }
        } else {
            Button::GridButton { x, y: (y - 1) as u8 }
        }
    }

    /// The absolute column of this button.
    pub open spec fn spec_abs_x(self) -> int {
        match self {
            Button::ControlButton { index } => index as int,
            Button::GridButton { x, .. } => x as int,
        }
    }

    /// The absolute row of this button: 0 for a control button, one more than
    /// the grid row for a grid button.
    pub open spec fn spec_abs_y(self) -> int {
        match self {
            Button::ControlButton { .. } => 0,
            Button::GridButton { y, .. } => y + 1,
        }
    }

    /// Whether this button lies on the device: a control index below 8, or a
    /// grid position within nine columns and eight rows.
    pub open spec fn on_device(self) -> bool {
        match self {
            Button::ControlButton { index } => index <= 7,
            Button::GridButton { x, y } => x <= 8 && y <= 7,
        }
    }

    /// Creates a button out of absolute coordinates, like the ones returned
    /// by `abs_x()` and `abs_y()`.
    pub fn from_abs(x: u8, y: u8) -> (button: Button)
        requires
            Button::abs_in_range(x, y),
        ensures
            button == Button::spec_from_abs(x, y),
            button.on_device(),
            button.spec_abs_x() == x,
            button.spec_abs_y() == y,
    {
        if y == 0 {
            Button::ControlButton { index: x }
        } else {
            Button::GridButton { x, y: y - 1 }
        }
    }

    /// Returns the x coordinate, with the origin in the leftmost control
    /// button.
    pub fn abs_x(&self) -> (x: u8)
        ensures
            x == self.spec_abs_x(),
    {
        match *self {
            Button::ControlButton { index } => index,
            Button::GridButton { x, .. } => x,
        }
    }

    /// Returns the y coordinate, with the origin in the leftmost control
    /// button.
    pub fn abs_y(&self) -> (y: u8)
        requires
            self.spec_abs_y() <= u8::MAX,
        ensures
            y == self.spec_abs_y(),
    {
        match *self {
            Button::ControlButton { .. } => 0,
            Button::GridButton { y, .. } => y + 1,
        }
    }
}

/// Taking a button's absolute coordinates and building a button from them
/// gives the same button back, for every button on the device.
pub proof fn lemma_button_abs_round_trip(button: Button)
    requires
        button.on_device(),
    ensures
        Button::abs_in_range(button.spec_abs_x() as u8, button.spec_abs_y() as u8),
        Button::spec_from_abs(button.spec_abs_x() as u8, button.spec_abs_y() as u8) == button,
{
}

} // verus!

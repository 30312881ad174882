//! The canvas abstraction: colors, button events and the operations that
//! every grid of lights offers, whether one device or a layout of several.

use vstd::prelude::*;
use crate::midi_io::MidiError;

pub mod layout;
pub mod poller;
pub mod records;
pub mod registration;
pub mod remap;

verus! {

/// The channel value that stands for 1. Channels and brightness levels are
/// fixed-point numbers counted in steps of `1 / UNIT`.
pub const UNIT: u32 = 65536;

/// A color of three channels, each a fixed-point number in steps of
/// `1 / UNIT`. A channel is normalized when it lies between 0 and `UNIT`.
#[derive(Debug, Copy, Clone, Hash, PartialEq, Eq, Structural)]
pub struct Color {
    pub r: i64,
    pub g: i64,
    pub b: i64,
}

impl Color {
    /// Whether every channel lies between 0 and `UNIT`.
    pub open spec fn normalized(self) -> bool {
        0 <= self.r <= UNIT && 0 <= self.g <= UNIT && 0 <= self.b <= UNIT
    }

    /// The color with the given channels.
    pub fn new(r: i64, g: i64, b: i64) -> (color: Color)
        ensures
            color == (Color { r, g, b }),
    {
        Color { r, g, b }
    }
}

/// A button event of a canvas, at the coordinates of the pad.
#[derive(Debug, Copy, Clone, Hash, PartialEq, Eq, Structural)]
pub enum CanvasMessage {
    Press { x: u32, y: u32 },
    Release { x: u32, y: u32 },
}

impl CanvasMessage {
    /// The column of the pad that this event is about.
    pub open spec fn spec_x(self) -> u32 {
        match self {
            CanvasMessage::Press { x, .. } => x,
            CanvasMessage::Release { x, .. } => x,
        }
    }

    /// The row of the pad that this event is about.
    pub open spec fn spec_y(self) -> u32 {
        match self {
            CanvasMessage::Press { y, .. } => y,
            CanvasMessage::Release { y, .. } => y,
        }
    }

    /// The column of the pad that this event is about.
    pub fn x(&self) -> (x: u32)
        ensures
            x == self.spec_x(),
    {
        match *self {
            CanvasMessage::Press { x, .. } => x,
            CanvasMessage::Release { x, .. } => x,
        }
    }

    /// The row of the pad that this event is about.
    pub fn y(&self) -> (y: u32)
        ensures
            y == self.spec_y(),
    {
        match *self {
            CanvasMessage::Press { y, .. } => y,
            CanvasMessage::Release { y, .. } => y,
        }
    }
}

/// A grid of lights with buttons: one device, or several behind one face.
///
/// Colors are written into a pending buffer and reach the lights on `flush`.
/// The spec functions are the model that the contracts speak of. Their
/// default bodies describe a canvas without pads; an implementation states
/// its own.
pub trait Canvas {
    /// What holds of a canvas between calls.
    open spec fn inv(&self) -> bool {
        true
    }

    /// The pads that can be addressed, in the order in which `pads` lists
    /// them. It never changes.
    open spec fn pad_list(&self) -> Seq<(u32, u32)> {
        Seq::empty()
    }

    /// Width and height of the grid.
    open spec fn extent(&self) -> (u32, u32) {
        (0, 0)
    }

    /// The lowest brightness that can still be told from off.
    open spec fn floor(&self) -> u32 {
        0
    }

    /// The color waiting to be sent for the pad at `(x, y)`, if there is
    /// such a pad.
    open spec fn pending_at(&self, x: u32, y: u32) -> Option<Color> {
        None
    }

    /// The color last sent for the pad at `(x, y)`, if there is such a pad.
    open spec fn committed_at(&self, x: u32, y: u32) -> Option<Color> {
        None
    }

    /// Width and height of the grid.
    fn bounding_box(&self) -> (size: (u32, u32))
        requires
            self.inv(),
        ensures
            size == self.extent(),
    ;

    /// The lowest brightness that can still be told from off, below `UNIT`.
    fn lowest_visible_brightness(&self) -> (level: u32)
        requires
            self.inv(),
        ensures
            level == self.floor(),
            level < UNIT,
    ;

    /// Every pad that can be addressed.
    fn pads(&self) -> (list: Vec<(u32, u32)>)
        requires
            self.inv(),
        ensures
            list@ == self.pad_list(),
    ;

    /// The color last sent for the pad at `(x, y)`; `None` where there is no
    /// such pad.
    fn low_level_get(&self, x: u32, y: u32) -> (color: Option<&Color>)
        requires
            self.inv(),
        ensures
            color.is_some() == self.pad_list().contains((x, y)),
            match color {
                Some(c) => self.committed_at(x, y) == Some(*c),
                None => self.committed_at(x, y).is_none(),
            },
    ;

    /// The color waiting to be sent for the pad at `(x, y)`; `None` where
    /// there is no such pad.
    fn low_level_get_pending(&self, x: u32, y: u32) -> (color: Option<&Color>)
        requires
            self.inv(),
        ensures
            color.is_some() == self.pad_list().contains((x, y)),
            match color {
                Some(c) => self.pending_at(x, y) == Some(*c),
                None => self.pending_at(x, y).is_none(),
            },
    ;

    /// The place of the color waiting to be sent for the pad at `(x, y)`,
    /// to write a new color into; `None` where there is no such pad. What
    /// is written there becomes the pad's pending color; nothing else
    /// changes.
    fn low_level_get_pending_mut(&mut self, x: u32, y: u32) -> (place: Option<&mut Color>)
        requires
            old(self).inv(),
        ensures
            final(self).inv(),
            place.is_some() == old(self).pad_list().contains((x, y)),
            match place {
                Some(c) => old(self).pending_at(x, y) == Some(*c),
                None => old(self).pending_at(x, y).is_none(),
            },
            final(self).pad_list() == old(self).pad_list(),
            final(self).extent() == old(self).extent(),
            final(self).floor() == old(self).floor(),
            forall|a: u32, b: u32| #[trigger]
                final(self).committed_at(a, b) == old(self).committed_at(a, b),
            forall|a: u32, b: u32| #[trigger]
                final(self).pending_at(a, b) == match place {
                    Some(c) if a == x && b == y => Some(*final(c)),
                    _ => old(self).pending_at(a, b),
                },
    ;

    /// Sends the pending colors to the lights. The pads and the pending
    /// colors stay what they are; on success every pad shows its pending
    /// color.
    fn flush(&mut self) -> (result: Result<(), MidiError>)
        requires
            old(self).inv(),
        ensures
            final(self).inv(),
            final(self).pad_list() == old(self).pad_list(),
            final(self).extent() == old(self).extent(),
            final(self).floor() == old(self).floor(),
            forall|a: u32, b: u32| #[trigger]
                final(self).pending_at(a, b) == old(self).pending_at(a, b),
            result.is_ok() ==> forall|a: u32, b: u32| #[trigger]
                final(self).committed_at(a, b) == old(self).pending_at(a, b),
    ;
}

} // verus!

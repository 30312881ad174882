//! Decoding of the MIDI messages that a Launchpad S sends.

use vstd::prelude::*;
use crate::Button;

verus! {

/// What a Launchpad S tells its host.
#[derive(Debug, Clone, Hash, PartialEq, Eq)]
pub enum Message {
    Press { button: Button },
    Release { button: Button },
    TextEndedOrLooped,
    /// Every once in a while the device sends a short message that its
    /// documentation does not mention. It is handed on as it came.
    UnknownShortMessage { bytes: [u8; 3] },
}

/// The grid button that a note number stands for: sixteen notes to a row.
pub open spec fn grid_button_of(btn: u8) -> Button {
    Button::GridButton { x: btn % 16, y: btn / 16 }
}

/// The grid button that a note number stands for.
pub fn decode_grid_button(btn: u8) -> (button: Button)
    ensures
        button == grid_button_of(btn),
{
    Button::GridButton { x: btn % 16, y: btn / 16 }
}

/// Whether a velocity says that a button went down or up.
pub open spec fn is_key_velocity(velocity: u8) -> bool {
    velocity == 0 || velocity == 127
}

/// The message for a button with the given velocity: 127 is a press,
/// anything else counts as a release.
pub open spec fn key_message(button: Button, velocity: u8) -> Message {
    if velocity == 127 {
        Message::Press { button }
    } else {
        Message::Release { button }
    }
}

/// Whether `data` is a message that a Launchpad S sends: three bytes, and a
/// velocity of 0 or 127 where the message is about a button.
pub open spec fn decodable(data: Seq<u8>) -> bool {
    &&& data.len() == 3
    &&& data[0] == 0x90 ==> is_key_velocity(data[2])
    &&& data[0] == 0xB0 && 104 <= data[1] <= 111 ==> is_key_velocity(data[2])
}

/// What the three bytes `data` say.
pub open spec fn decoded(data: Seq<u8>) -> Message {
    if data[0] == 0x90 {
        key_message(grid_button_of(data[1]), data[2])
    } else if data[0] == 0xB0 && 104 <= data[1] <= 111 {
        key_message(Button::ControlButton { index: (data[1] - 104) as u8 }, data[2])
    } else if data[0] == 0xB0 && data[1] == 0 && data[2] == 3 {
        Message::TextEndedOrLooped
    } else {
        Message::UnknownShortMessage { bytes: [data[0], data[1], data[2]] }
    }
}

/// The input side of a Launchpad S.
pub struct Input;

impl Input {
    /// The name under which the MIDI connection is opened.
    pub const MIDI_CONNECTION_NAME: &'static str = "Launchy S input";

    /// What the device's port name contains.
    pub const MIDI_DEVICE_KEYWORD: &'static str = "Launchpad S";

    /// Whether `data` can be decoded.
    pub fn can_decode(data: &[u8]) -> (ok: bool)
        ensures
            ok == decodable(data@),
    {
        if data.len() != 3 {
            return false;
        }
        let about_button = data[0] == 0x90 || (data[0] == 0xB0 && 104 <= data[1] && data[1] <= 111);
        !about_button || data[2] == 0 || data[2] == 127
    }

    /// Decodes a message of the device. The first byte says what kind of
    /// message it is; a note-on with velocity 0 stands for a release.
    pub fn decode_message(_timestamp: u64, data: &[u8]) -> (msg: Message)
        requires
            decodable(data@),
        ensures
            msg == decoded(data@),
    {
        let kind = data[0];
        let number = data[1];
        let velocity = data[2];
        if kind == 0x90 {
            let button = decode_grid_button(number);
            if velocity == 127 {
                Message::Press { button }
            } else {
                Message::Release { button }
            }
        } else if kind == 0xB0 && 104 <= number && number <= 111 {
            let button = Button::ControlButton { index: number - 104 };
            if velocity == 127 {
                Message::Press { button }
            } else {
                Message::Release { button }
            }
        } else if kind == 0xB0 && number == 0 && velocity == 3 {
            Message::TextEndedOrLooped
        } else {
            Message::UnknownShortMessage { bytes: [kind, number, velocity] }
        }
    }
}

} // verus!

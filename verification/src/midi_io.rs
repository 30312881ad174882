//! Errors of the MIDI transport that carries colors to a device.

use vstd::prelude::*;

verus! {

/// Why talking to a device over MIDI failed.
#[derive(Debug, Copy, Clone, Hash, PartialEq, Eq, Structural)]
pub enum MidiError {
    /// The MIDI backend could not be initialised.
    Init,
    /// The list of ports could not be read.
    PortInfo,
    /// No port carries the name that was looked for.
    NoPortFound,
    /// A port was found but the connection to it failed.
    Connect,
    /// A message could not be sent over an open connection.
    Send,
}

} // verus!

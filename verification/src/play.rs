//! The message type handed to the playback thread that owns the live
//! device connection. The thread itself — opening ports and sending bytes —
//! lives with the surrounding application; the core only defines what can
//! be asked of it.

use vstd::prelude::*;

verus! {

/// A request to the playback thread: connect to the numbered output port,
/// send the given raw bytes, or drop the connection.
#[derive(Debug, Clone, PartialEq, Eq)]
pub enum MidiMessage {
    ChangePort(usize),
    Midi(Vec<u8>),
    Close,
}

} // verus!

//! Predicates over raw channel messages: recognizing note-on and note-off
//! messages and extracting their fields.

use crate::event::MidiMessage;
use crate::event::note_off_of;
use crate::event::note_on_of;
use vstd::prelude::*;

verus! {

/// Returns `(channel, note, velocity)` when the message is a note-on:
/// a three-byte message whose status byte lies in `0x90..0xA0`.
pub fn note_on(msg: &MidiMessage) -> (r: Option<(u8, u8, u8)>)
    ensures
        r == note_on_of(msg.data@),
{
    if msg.data.len() != 3 {
        return None;
    }
    let first = msg.data[0];
    if 0x90 <= first && first < 0xA0 {
        return Some((first - 0x90, msg.data[1], msg.data[2]));
    }
    None
}

/// Returns `(channel, note, velocity)` when the message is a note-off:
/// a three-byte message whose status byte lies in `0x80..0x90`.
pub fn note_off(msg: &MidiMessage) -> (r: Option<(u8, u8, u8)>)
    ensures
        r == note_off_of(msg.data@),
{
    if msg.data.len() != 3 {
        return None;
    }
    let first = msg.data[0];
    if 0x80 <= first && first < 0x90 {
        return Some((first - 0x80, msg.data[1], msg.data[2]));
    }
    None
}

} // verus!

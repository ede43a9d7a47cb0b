//! Value types for track events: raw channel messages, meta events, and the
//! delta-timed wire form. The byte layouts follow the Standard MIDI File
//! format: a channel message is a status byte followed by its operands, and a
//! meta event is a command byte with a payload.

use vstd::prelude::*;

verus! {

/// Meta command byte marking the end of a track.
pub const META_END_OF_TRACK: u8 = 0x2F;

/// Meta command byte for a tempo-setting event (3-byte payload,
/// big-endian microseconds per quarter note).
pub const META_TEMPO_SETTING: u8 = 0x51;

/// Meta command byte for a time-signature event (4-byte payload:
/// numerator, log2 of the denominator, clocks per click, 32nds per quarter).
pub const META_TIME_SIGNATURE: u8 = 0x58;

/// A raw MIDI channel message, stored in its wire form: the status byte
/// followed by the message's operand bytes.
#[derive(Debug, Clone)]
pub struct MidiMessage {
    pub data: Vec<u8>,
}

/// A meta event: a command byte and its payload bytes.
#[derive(Debug, Clone)]
pub struct MetaEvent {
    pub command: u8,
    pub data: Vec<u8>,
}

/// An event in a track: either a channel message or a meta event.
#[derive(Debug, Clone)]
pub enum SmfEvent {
    Midi(MidiMessage),
    Meta(MetaEvent),
}

/// An event together with its wire delta-time: the number of ticks since the
/// previous event of the same track.
#[derive(Debug, Clone)]
pub struct TrackEvent {
    pub vtime: u64,
    pub event: SmfEvent,
}

/// The (channel, note, velocity) triple encoded by the bytes of a note-on
/// message: a three-byte channel message whose status nibble is 9.
pub open spec fn note_on_of(data: Seq<u8>) -> Option<(u8, u8, u8)> {
    if data.len() == 3 && 0x90 <= data[0] && data[0] < 0xA0 {
        Some(((data[0] - 0x90) as u8, data[1], data[2]))
    } else {
        None
    }
}

/// The (channel, note, velocity) triple encoded by the bytes of a note-off
/// message: a three-byte channel message whose status nibble is 8.
pub open spec fn note_off_of(data: Seq<u8>) -> Option<(u8, u8, u8)> {
    if data.len() == 3 && 0x80 <= data[0] && data[0] < 0x90 {
        Some(((data[0] - 0x80) as u8, data[1], data[2]))
    } else {
        None
    }
}

impl SmfEvent {
    /// The (channel, note, velocity) triple of a note-on message, if this
    /// event is one.
    pub open spec fn spec_note_on(self) -> Option<(u8, u8, u8)> {
        match self {
            SmfEvent::Midi(m) => note_on_of(m.data@),
            SmfEvent::Meta(_) => None,
        }
    }

    /// The (channel, note, velocity) triple of a note-off message, if this
    /// event is one.
    pub open spec fn spec_note_off(self) -> Option<(u8, u8, u8)> {
        match self {
            SmfEvent::Midi(m) => note_off_of(m.data@),
            SmfEvent::Meta(_) => None,
        }
    }

    pub open spec fn spec_is_note_on(self) -> bool {
        self.spec_note_on() is Some
    }

    pub open spec fn spec_is_note_off(self) -> bool {
        self.spec_note_off() is Some
    }

    /// Whether this event is the end-of-track meta event.
    pub open spec fn spec_is_end_of_track(self) -> bool {
        match self {
            SmfEvent::Meta(m) => m.command == META_END_OF_TRACK,
            SmfEvent::Midi(_) => false,
        }
    }

    pub fn is_end_of_track(&self) -> (r: bool)
        ensures
            r == self.spec_is_end_of_track(),
    {
        match self {
            SmfEvent::Meta(m) => m.command == META_END_OF_TRACK,
            SmfEvent::Midi(_) => false,
        }
    }

    pub fn is_note_on(&self) -> (r: bool)
        ensures
            r == self.spec_is_note_on(),
    {
        match self {
            SmfEvent::Midi(m) => {
                m.data.len() == 3 && 0x90 <= m.data[0] && m.data[0] < 0xA0
            },
            SmfEvent::Meta(_) => false,
        }
    }

    pub fn is_note_off(&self) -> (r: bool)
        ensures
            r == self.spec_is_note_off(),
    {
        match self {
            SmfEvent::Midi(m) => {
                m.data.len() == 3 && 0x80 <= m.data[0] && m.data[0] < 0x90
            },
            SmfEvent::Meta(_) => false,
        }
    }

    /// A structural copy of this event: a fresh event carrying the same
    /// command and the same bytes.
    pub fn duplicate(&self) -> (r: SmfEvent)
        ensures
            same_event(r, *self),
    {
        match self {
            SmfEvent::Midi(m) => SmfEvent::Midi(MidiMessage { data: m.data.clone() }),
            SmfEvent::Meta(m) => SmfEvent::Meta(
                MetaEvent { command: m.command, data: m.data.clone() },
            ),
        }
    }
}

/// Two events are the same when they have the same tag and carry the same
/// bytes. This is the value-level equality of events; it ignores where the
/// byte buffers live.
pub open spec fn same_event(a: SmfEvent, b: SmfEvent) -> bool {
    match (a, b) {
        (SmfEvent::Midi(x), SmfEvent::Midi(y)) => x.data@ == y.data@,
        (SmfEvent::Meta(x), SmfEvent::Meta(y)) => x.command == y.command && x.data@ == y.data@,
        _ => false,
    }
}

impl TrackEvent {
    /// A structural copy: same delta-time, same event bytes.
    pub fn duplicate(&self) -> (r: TrackEvent)
        ensures
            r.vtime == self.vtime,
            same_event(r.event, self.event),
    {
        TrackEvent { vtime: self.vtime, event: self.event.duplicate() }
    }
}

} // verus!

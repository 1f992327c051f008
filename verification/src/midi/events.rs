//! The event vocabulary used between conversion and writing.

use crate::color::Color;
use vstd::prelude::*;

verus! {

/// A single MIDI (or MIDI-adjacent) event.
#[derive(Clone, Debug, PartialEq, Eq, Structural)]
pub enum MidiEvent {
    /// Note on.
    NoteOn { channel: u8, key: u8, velocity: u8 },
    /// Note off.
    NoteOff { channel: u8, key: u8, velocity: u8 },
    /// Tempo meta event, in microseconds per quarter note.
    Tempo { tempo: u32 },
    /// Track-color meta event.
    Color { track: usize, color: Color },
}

impl MidiEvent {
    /// Create a note-on event.
    pub fn note_on(channel: u8, key: u8, velocity: u8) -> (e: MidiEvent)
        ensures
            e == (MidiEvent::NoteOn { channel, key, velocity }),
    {
        MidiEvent::NoteOn { channel, key, velocity }
    }

    /// Create a note-off event.
    pub fn note_off(channel: u8, key: u8, velocity: u8) -> (e: MidiEvent)
        ensures
            e == (MidiEvent::NoteOff { channel, key, velocity }),
    {
        MidiEvent::NoteOff { channel, key, velocity }
    }

    /// Create a tempo meta event (`tempo` in microseconds per quarter).
    pub fn tempo(tempo: u32) -> (e: MidiEvent)
        ensures
            e == (MidiEvent::Tempo { tempo }),
    {
        MidiEvent::Tempo { tempo }
    }

    /// Create a track-color meta event for `track`.
    pub fn color(track: usize, color: Color) -> (e: MidiEvent)
        ensures
            e == (MidiEvent::Color { track, color }),
    {
        MidiEvent::Color { track, color }
    }
}

} // verus!

//! MIDI events stamped with absolute ticks, and the MIDI file builder.

use vstd::prelude::*;

pub mod events;
pub mod writer;

verus! {

/// A MIDI event stamped with an absolute tick (pixel rows during
/// conversion, MIDI ticks once laid out by the writer).
#[derive(Clone, Debug)]
pub struct TimedMidiEvent {
    /// Absolute tick of the event.
    pub tick: u64,
    /// The event payload.
    pub event: events::MidiEvent,
}

impl TimedMidiEvent {
    /// Pair `event` with its absolute `tick`.
    pub fn new(tick: u64, event: events::MidiEvent) -> (t: TimedMidiEvent)
        ensures
            t == (TimedMidiEvent { tick, event }),
    {
        TimedMidiEvent { tick, event }
    }
}

} // verus!

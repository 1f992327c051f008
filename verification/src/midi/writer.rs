//! Lay conversion results out as the tracks of a Format-1 MIDI file.
//!
//! Every palette color becomes one track. Results are chained back to back
//! in time, event ticks are scaled by `ticks_per_pixel`, events are ordered
//! by tick (stable) and written with delta times; a tempo event opens the
//! first track and an optional track-color meta event opens every track.

use crate::color::Color;
use crate::config::ConverterConfig;
use crate::convert::ConversionResult;
use crate::error::Error;
use crate::midi::events::MidiEvent;
use crate::midi::TimedMidiEvent;
use vstd::prelude::*;

verus! {

/// The kind of one track event of the MIDI file.
#[derive(Debug)]
pub enum SmfEventKind {
    /// Note on (channel, key and velocity are masked to 4, 7 and 7 bits on output).
    NoteOn { channel: u8, key: u8, velocity: u8 },
    /// Note off.
    NoteOff { channel: u8, key: u8, velocity: u8 },
    /// Tempo meta event (microseconds per quarter; masked to 24 bits on output).
    Tempo { tempo: u32 },
    /// A meta event of type `meta_type` carrying `data`.
    Unknown { meta_type: u8, data: Vec<u8> },
    /// End of track.
    EndOfTrack,
}

/// One track event: a delta time (masked to 28 bits on output) and a kind.
#[derive(Debug)]
pub struct SmfEvent {
    /// Ticks since the previous event of the track.
    pub delta: u32,
    /// What happens.
    pub kind: SmfEventKind,
}

/// A Format-1 (parallel tracks) MIDI file with metrical timing.
#[derive(Debug)]
pub struct SmfFile {
    /// Pulses per quarter note (masked to 15 bits on output).
    pub ppq: u16,
    /// The tracks, one per palette color.
    pub tracks: Vec<Vec<SmfEvent>>,
}

/// The kind of a track event, as a mathematical value.
pub enum SmfKindModel {
    NoteOn { channel: u8, key: u8, velocity: u8 },
    NoteOff { channel: u8, key: u8, velocity: u8 },
    Tempo { tempo: u32 },
    Unknown { meta_type: u8, data: Seq<u8> },
    EndOfTrack,
}

/// A track event, as a mathematical value.
pub struct SmfEventModel {
    pub delta: u32,
    pub kind: SmfKindModel,
}

impl View for SmfEvent {
    type V = SmfEventModel;

    open spec fn view(&self) -> SmfEventModel {
        SmfEventModel {
            delta: self.delta,
            kind: match self.kind {
                SmfEventKind::NoteOn { channel, key, velocity } => SmfKindModel::NoteOn { channel, key, velocity },
                SmfEventKind::NoteOff { channel, key, velocity } => SmfKindModel::NoteOff { channel, key, velocity },
                SmfEventKind::Tempo { tempo } => SmfKindModel::Tempo { tempo },
                SmfEventKind::Unknown { meta_type, data } => SmfKindModel::Unknown { meta_type, data: data@ },
                SmfEventKind::EndOfTrack => SmfKindModel::EndOfTrack,
            },
        }
    }
}

/// The payload of a track-color meta event: `[0, 15, track % 16, 0, r, g, b, a]`.
pub open spec fn color_payload(track: int, color: Color) -> Seq<u8> {
    seq![0u8, 0x0Fu8, (track % 16) as u8, 0u8, color.r, color.g, color.b, color.a]
}

/// Build the payload bytes of a track-color meta event:
/// `[0x00, 0x0F, track % 16, 0x00, r, g, b, a]`.
pub fn color_event_payload(track: usize, color: Color) -> (payload: Vec<u8>)
    ensures
        payload@ == color_payload(track as int, color),
{
    let slot = (track % 16) as u8;
    let payload = vec![0x00u8, 0x0Fu8, slot, 0x00u8, color.r, color.g, color.b, color.a];
    proof {
        assert(payload@ =~= color_payload(track as int, color));
    }
    payload
}

// ---------------------------------------------------------------------------
// Specification of the layout
// ---------------------------------------------------------------------------

/// An event waiting to be laid out, at an absolute tick.
#[derive(Debug)]
pub struct PendingEvent {
    /// Absolute tick (MIDI ticks).
    pub tick: u64,
    /// The event.
    pub event: MidiEvent,
}

/// `a + b`, saturated to `u64`.
pub open spec fn sat_add(a: int, b: int) -> int {
    if a + b > u64::MAX {
        u64::MAX as int
    } else {
        a + b
    }
}

/// `a * b`, saturated to `u64`.
pub open spec fn sat_mul(a: int, b: int) -> int {
    if a * b > u64::MAX {
        u64::MAX as int
    } else {
        a * b
    }
}

/// MIDI ticks per pixel row (`0` counts as `1`).
pub open spec fn tick_factor(config: ConverterConfig) -> int {
    if config.ticks_per_pixel == 0 {
        1
    } else {
        config.ticks_per_pixel as int
    }
}

/// The absolute tick at which result `r` starts: each result follows the
/// previous one after `height * ticks_per_pixel` ticks, from `start_offset`.
pub open spec fn result_start(results: Seq<&ConversionResult>, config: ConverterConfig, r: int) -> int
    decreases r,
{
    if r <= 0 {
        config.start_offset as int
    } else {
        sat_add(
            result_start(results, config, r - 1),
            sat_mul(results[r - 1].height as int, tick_factor(config)),
        )
    }
}

/// Events of one result track moved to absolute MIDI ticks.
pub open spec fn shifted(events: Seq<TimedMidiEvent>, factor: int, base: int) -> Seq<PendingEvent> {
    Seq::new(
        events.len(),
        |i: int| PendingEvent { tick: sat_add(sat_mul(events[i].tick as int, factor), base) as u64, event: events[i].event },
    )
}

/// Events of track `track` of results `0..r`, at absolute ticks.
pub open spec fn body_events(results: Seq<&ConversionResult>, config: ConverterConfig, track: int, r: int) -> Seq<
    PendingEvent,
>
    decreases r,
{
    if r <= 0 {
        Seq::empty()
    } else {
        body_events(results, config, track, r - 1) + shifted(
            results[r - 1].track_events@[track]@,
            tick_factor(config),
            result_start(results, config, r - 1),
        )
    }
}

/// The events of track `track` before ordering: the optional color event,
/// then every result's events.
pub open spec fn pending_events(results: Seq<&ConversionResult>, config: ConverterConfig, track: int) -> Seq<
    PendingEvent,
> {
    let header: Seq<PendingEvent> = if config.emit_color_events {
        seq![PendingEvent { tick: config.start_offset as u64, event: MidiEvent::Color { track: track as usize, color: results[0].palette@[track] } }]
    } else {
        Seq::empty()
    };
    header + body_events(results, config, track, results.len() as int)
}

/// Where a stable insertion places an event with tick `tick`: after every
/// event whose tick is not larger.
pub open spec fn insert_pos(sorted: Seq<PendingEvent>, tick: u64) -> int
    decreases sorted.len(),
{
    if sorted.len() == 0 {
        0
    } else if sorted.last().tick > tick {
        insert_pos(sorted.drop_last(), tick)
    } else {
        sorted.len() as int
    }
}

/// The events ordered by tick; equal ticks keep their order.
pub open spec fn sort_by_tick(events: Seq<PendingEvent>) -> Seq<PendingEvent>
    decreases events.len(),
{
    if events.len() == 0 {
        Seq::empty()
    } else {
        let rest = sort_by_tick(events.drop_last());
        rest.insert(insert_pos(rest, events.last().tick), events.last())
    }
}

/// The kind of track event an event becomes on track `track`.
pub open spec fn kind_model(event: MidiEvent, track: int, palette: Seq<Color>) -> SmfKindModel {
    match event {
        MidiEvent::NoteOn { channel, key, velocity } => SmfKindModel::NoteOn { channel, key, velocity },
        MidiEvent::NoteOff { channel, key, velocity } => SmfKindModel::NoteOff { channel, key, velocity },
        MidiEvent::Tempo { tempo } => SmfKindModel::Tempo { tempo },
        MidiEvent::Color { .. } => SmfKindModel::Unknown { meta_type: 0x0A, data: color_payload(track, palette[track]) },
    }
}

/// `x` truncated to 32 bits.
pub open spec fn low_32(x: int) -> u32 {
    (x % 0x1_0000_0000) as u32
}

/// Event `i` of an ordered list, written with its delta time.
pub open spec fn encoded_event(sorted: Seq<PendingEvent>, i: int, track: int, palette: Seq<Color>) -> SmfEventModel {
    SmfEventModel {
        delta: low_32(sorted[i].tick - if i == 0 { 0 } else { sorted[i - 1].tick as int }),
        kind: kind_model(sorted[i].event, track, palette),
    }
}

/// Ordered events written with delta times, closed by an end-of-track event.
pub open spec fn encode_track(sorted: Seq<PendingEvent>, track: int, palette: Seq<Color>) -> Seq<SmfEventModel> {
    Seq::new(sorted.len(), |i: int| encoded_event(sorted, i, track, palette)).push(
        SmfEventModel { delta: 0, kind: SmfKindModel::EndOfTrack },
    )
}

/// The views of the events of one track.
pub open spec fn track_view(track: Seq<SmfEvent>) -> Seq<SmfEventModel> {
    track.map_values(|e: SmfEvent| e@)
}

/// Microseconds per quarter note at `bpm` beats per minute (`0` counts as `1`).
pub open spec fn tempo_of(bpm: u16) -> u32 {
    (60_000_000int / (if bpm == 0 { 1int } else { bpm as int })) as u32
}

/// Track `track` of the file: its ordered events; the first track opens with
/// the tempo event.
pub open spec fn file_track(results: Seq<&ConversionResult>, config: ConverterConfig, track: int) -> Seq<SmfEventModel> {
    let body = encode_track(sort_by_tick(pending_events(results, config, track)), track, results[0].palette@);
    if track == 0 {
        seq![SmfEventModel { delta: 0, kind: SmfKindModel::Tempo { tempo: tempo_of(config.bpm) } }] + body
    } else {
        body
    }
}

/// Some result carries a track-color event of its own on track `track`;
/// such events have no payload and cannot be written.
pub open spec fn track_has_stray_color(results: Seq<&ConversionResult>, track: int) -> bool {
    exists|r: int, j: int|
        #![trigger results[r].track_events@[track]@[j]]
        0 <= r < results.len() && 0 <= j < results[r].track_events@[track]@.len()
            && results[r].track_events@[track]@[j].event is Color
}

/// One of the first `track_count` tracks has a stray track-color event.
pub open spec fn has_stray_color_event(results: Seq<&ConversionResult>, track_count: int) -> bool {
    exists|t: int| 0 <= t < track_count && #[trigger] track_has_stray_color(results, t)
}

/// Every result has a track for every palette color of the first result.
pub open spec fn tracks_cover_palette(results: Seq<&ConversionResult>) -> bool {
    forall|r: int| 0 <= r < results.len() ==> results[0].palette@.len() <= #[trigger] results[r].track_events@.len()
}

// ---------------------------------------------------------------------------
// Executable layout
// ---------------------------------------------------------------------------

fn copy_event(event: &MidiEvent) -> (e: MidiEvent)
    ensures
        e == *event,
{
    match event {
        MidiEvent::NoteOn { channel, key, velocity } => MidiEvent::NoteOn { channel: *channel, key: *key, velocity: *velocity },
        MidiEvent::NoteOff { channel, key, velocity } => MidiEvent::NoteOff { channel: *channel, key: *key, velocity: *velocity },
        MidiEvent::Tempo { tempo } => MidiEvent::Tempo { tempo: *tempo },
        MidiEvent::Color { track, color } => MidiEvent::Color { track: *track, color: *color },
    }
}

fn saturating_add_u64(a: u64, b: u64) -> (r: u64)
    ensures
        r == sat_add(a as int, b as int),
{
    match a.checked_add(b) {
        Some(v) => v,
        None => u64::MAX,
    }
}

fn saturating_mul_u64(a: u64, b: u64) -> (r: u64)
    ensures
        r == sat_mul(a as int, b as int),
{
    match a.checked_mul(b) {
        Some(v) => v,
        None => u64::MAX,
    }
}

/// Order events by tick; events with equal ticks keep their order.
pub fn sort_pending(events: &Vec<PendingEvent>) -> (sorted: Vec<PendingEvent>)
    ensures
        sorted@ == sort_by_tick(events@),
{
    let mut sorted: Vec<PendingEvent> = Vec::new();
    let n = events.len();
    let mut i: usize = 0;
    while i < n
        invariant
            n == events@.len(),
            i <= n,
            sorted@ == sort_by_tick(events@.take(i as int)),
        decreases n - i,
    {
        let item = PendingEvent { tick: events[i].tick, event: copy_event(&events[i].event) };
        proof {
            assert(item == events@[i as int]);
            assert(events@.take(i as int + 1).drop_last() == events@.take(i as int));
            assert(events@.take(i as int + 1).last() == events@[i as int]);
        }
        let mut pos = sorted.len();
        proof {
            assert(sorted@.take(pos as int) == sorted@);
        }
        while pos > 0 && sorted[pos - 1].tick > item.tick
            invariant
                pos <= sorted@.len(),
                insert_pos(sorted@, item.tick) == insert_pos(sorted@.take(pos as int), item.tick),
            decreases pos,
        {
            proof {
                assert(sorted@.take(pos as int).drop_last() == sorted@.take(pos - 1));
            }
            pos = pos - 1;
        }
        proof {
            if pos > 0 {
                assert(sorted@.take(pos as int).last() == sorted@[pos - 1]);
            } else {
                assert(sorted@.take(0) =~= Seq::<PendingEvent>::empty());
            }
        }
        sorted.insert(pos, item);
        i = i + 1;
    }
    proof {
        assert(events@.take(n as int) == events@);
    }
    sorted
}

/// A sorted list stays sorted when an event is inserted where
/// [`insert_pos`] says, and that position splits smaller-or-equal ticks from
/// larger ones.
proof fn lemma_insert_pos(s: Seq<PendingEvent>, tick: u64)
    requires
        forall|i: int, j: int| 0 <= i <= j < s.len() ==> s[i].tick <= s[j].tick,
    ensures
        0 <= insert_pos(s, tick) <= s.len(),
        forall|i: int| 0 <= i < insert_pos(s, tick) ==> s[i].tick <= tick,
        forall|i: int| insert_pos(s, tick) <= i < s.len() ==> s[i].tick > tick,
    decreases s.len(),
{
    if s.len() > 0 {
        if s.last().tick > tick {
            lemma_insert_pos(s.drop_last(), tick);
            assert forall|i: int| insert_pos(s, tick) <= i < s.len() implies s[i].tick > tick by {
                if i < s.len() - 1 {
                    assert(s[i] == s.drop_last()[i]);
                }
            }
            assert forall|i: int| 0 <= i < insert_pos(s, tick) implies s[i].tick <= tick by {
                assert(s[i] == s.drop_last()[i]);
            }
        } else {
            assert forall|i: int| 0 <= i < insert_pos(s, tick) implies s[i].tick <= tick by {
                assert(s[i].tick <= s[s.len() - 1].tick);
            }
        }
    }
}

/// Ordering keeps exactly the events it was given and puts them in tick
/// order.
pub proof fn law_sorted_by_tick(events: Seq<PendingEvent>)
    ensures
        sort_by_tick(events).len() == events.len(),
        sort_by_tick(events).to_multiset() == events.to_multiset(),
        forall|i: int, j: int|
            0 <= i <= j < sort_by_tick(events).len() ==> #[trigger] sort_by_tick(events)[i].tick <= #[trigger] sort_by_tick(events)[j].tick,
    decreases events.len(),
{
    if events.len() == 0 {
        assert(sort_by_tick(events) =~= events);
    } else {
        let rest = sort_by_tick(events.drop_last());
        law_sorted_by_tick(events.drop_last());
        lemma_insert_pos(rest, events.last().tick);
        let p = insert_pos(rest, events.last().tick);
        let out = rest.insert(p, events.last());
        vstd::seq_lib::to_multiset_insert(rest, p, events.last());
        vstd::seq_lib::to_multiset_build(events.drop_last(), events.last());
        assert(events.drop_last().push(events.last()) == events);
        assert forall|i: int, j: int| 0 <= i <= j < out.len() implies #[trigger] out[i].tick <= #[trigger] out[j].tick by {
            if i < p && j < p {
            } else if i < p && j == p {
            } else if i < p {
                assert(out[j] == rest[j - 1]);
            } else if i == p && j == p {
            } else if i == p {
                assert(out[j] == rest[j - 1]);
            } else {
                assert(out[i] == rest[i - 1]);
                assert(out[j] == rest[j - 1]);
            }
        }
    }
}

/// The events of track `track` before ordering, or an error when a result
/// carries a track-color event on that track.
fn collect_pending(results: &[&ConversionResult], config: &ConverterConfig, track: usize) -> (r: Result<
    Vec<PendingEvent>,
    Error,
>)
    requires
        results@.len() > 0,
        track < results@[0].palette@.len(),
        tracks_cover_palette(results@),
    ensures
        r is Err <==> track_has_stray_color(results@, track as int),
        r matches Err(e) ==> e is Midi,
        r matches Ok(v) ==> v@ == pending_events(results@, *config, track as int),
{
    let factor: u64 = if config.ticks_per_pixel == 0 {
        1
    } else {
        config.ticks_per_pixel as u64
    };
    let start_offset = config.start_offset as u64;
    let mut pending: Vec<PendingEvent> = Vec::new();
    if config.emit_color_events {
        let color = results[0].palette[track];
        pending.push(PendingEvent { tick: start_offset, event: MidiEvent::Color { track, color } });
    }
    let ghost header = pending@;
    proof {
        assert(header + body_events(results@, *config, track as int, 0) == header);
    }
    let mut global: u64 = start_offset;
    let mut r: usize = 0;
    while r < results.len()
        invariant
            results@.len() > 0,
            track < results@[0].palette@.len(),
            tracks_cover_palette(results@),
            factor == tick_factor(*config),
            r <= results@.len(),
            global == result_start(results@, *config, r as int),
            pending@ == header + body_events(results@, *config, track as int, r as int),
            header == pending_events(results@, *config, track as int).take(header.len() as int),
            header.len() == if config.emit_color_events { 1int } else { 0int },
            forall|rr: int, j: int|
                0 <= rr < r && 0 <= j < results@[rr].track_events@[track as int]@.len()
                    ==> !(#[trigger] results@[rr].track_events@[track as int]@[j].event is Color),
        decreases results@.len() - r,
    {
        let result = results[r];
        proof {
            assert(results@[0].palette@.len() <= results@[r as int].track_events@.len());
        }
        let events = &result.track_events[track];
        let ghost prefix = pending@;
        let mut j: usize = 0;
        while j < events.len()
            invariant
                factor == tick_factor(*config),
                global == result_start(results@, *config, r as int),
                r < results@.len(),
                events@ == results@[r as int].track_events@[track as int]@,
                j <= events@.len(),
                pending@ == prefix + shifted(events@.take(j as int), factor as int, global as int),
                forall|jj: int| 0 <= jj < j ==> !(#[trigger] events@[jj].event is Color),
            decreases events@.len() - j,
        {
            let timed = &events[j];
            if let MidiEvent::Color { .. } = timed.event {
                proof {
                    assert(results@[r as int].track_events@[track as int]@[j as int].event is Color);
                    assert(track_has_stray_color(results@, track as int));
                }
                return Err(Error::Midi("missing color payload index".to_string()));
            }
            let tick = saturating_add_u64(saturating_mul_u64(timed.tick, factor), global);
            pending.push(PendingEvent { tick, event: copy_event(&timed.event) });
            proof {
                assert(shifted(events@.take(j as int + 1), factor as int, global as int) =~= shifted(
                    events@.take(j as int),
                    factor as int,
                    global as int,
                ).push(PendingEvent { tick, event: events@[j as int].event }));
            }
            j = j + 1;
        }
        proof {
            assert(events@.take(events@.len() as int) == events@);
            assert(body_events(results@, *config, track as int, r + 1) == body_events(results@, *config, track as int, r as int)
                + shifted(events@, factor as int, global as int));
        }
        global = saturating_add_u64(global, saturating_mul_u64(result.height as u64, factor));
        r = r + 1;
    }
    proof {
        assert(pending@ == pending_events(results@, *config, track as int));
        if track_has_stray_color(results@, track as int) {
            let (rr, jj) = choose|rr: int, jj: int|
                0 <= rr < results@.len() && 0 <= jj < results@[rr].track_events@[track as int]@.len()
                    && (#[trigger] results@[rr].track_events@[track as int]@[jj]).event is Color;
            assert(!(results@[rr].track_events@[track as int]@[jj].event is Color));
        }
    }
    Ok(pending)
}

/// Write ordered events with delta times and close the track.
fn encode_sorted(sorted: &Vec<PendingEvent>, track: usize, palette: &Vec<Color>) -> (events: Vec<SmfEvent>)
    requires
        track < palette@.len(),
        forall|i: int, j: int| 0 <= i <= j < sorted@.len() ==> #[trigger] sorted@[i].tick <= #[trigger] sorted@[j].tick,
    ensures
        track_view(events@) == encode_track(sorted@, track as int, palette@),
{
    let mut events: Vec<SmfEvent> = Vec::new();
    let mut last_tick: u64 = 0;
    let mut i: usize = 0;
    while i < sorted.len()
        invariant
            track < palette@.len(),
            forall|a: int, b: int| 0 <= a <= b < sorted@.len() ==> #[trigger] sorted@[a].tick <= #[trigger] sorted@[b].tick,
            i <= sorted@.len(),
            last_tick == if i == 0 { 0 } else { sorted@[i - 1].tick },
            track_view(events@) == Seq::new(i as nat, |k: int| encoded_event(sorted@, k, track as int, palette@)),
        decreases sorted@.len() - i,
    {
        let item = &sorted[i];
        proof {
            if i > 0 {
                assert(sorted@[i - 1].tick <= sorted@[i as int].tick);
            }
        }
        let delta = item.tick - last_tick;
        let kind = match &item.event {
            MidiEvent::NoteOn { channel, key, velocity } => SmfEventKind::NoteOn { channel: *channel, key: *key, velocity: *velocity },
            MidiEvent::NoteOff { channel, key, velocity } => SmfEventKind::NoteOff { channel: *channel, key: *key, velocity: *velocity },
            MidiEvent::Tempo { tempo } => SmfEventKind::Tempo { tempo: *tempo },
            MidiEvent::Color { .. } => SmfEventKind::Unknown { meta_type: 0x0A, data: color_event_payload(track, palette[track]) },
        };
        let event = SmfEvent { delta: (delta % 0x1_0000_0000) as u32, kind };
        let ghost before = events@;
        events.push(event);
        proof {
            assert(track_view(events@) =~= track_view(before).push(event@));
            assert(event@ == encoded_event(sorted@, i as int, track as int, palette@));
            assert(track_view(events@) =~= Seq::new(i as nat + 1, |k: int| encoded_event(sorted@, k, track as int, palette@)));
        }
        last_tick = item.tick;
        i = i + 1;
    }
    let ghost before = events@;
    events.push(SmfEvent { delta: 0, kind: SmfEventKind::EndOfTrack });
    proof {
        assert(track_view(events@) =~= track_view(before).push(SmfEventModel { delta: 0, kind: SmfKindModel::EndOfTrack }));
    }
    events
}

/// Lay conversion results out as the tracks of a Format-1 MIDI file.
///
/// One track per color of the first result's palette. Results are chained
/// back to back: result `i` starts `height * ticks_per_pixel` ticks after
/// result `i - 1`, the first at `start_offset`; event ticks are multiplied by
/// `ticks_per_pixel` (`0` counts as `1`), all with saturating arithmetic.
/// Each track's events are ordered by tick (stably), preceded by a
/// track-color meta event when `emit_color_events` is set, written with
/// delta times and closed by an end-of-track event; the first track opens
/// with a tempo event of `60_000_000 / bpm` microseconds per quarter.
///
/// Fails with [`Error::Midi`] when there are no results, the first result
/// has no tracks, or a result carries a track-color event of its own.
pub fn build_midi_file(results: &[&ConversionResult], config: &ConverterConfig) -> (r: Result<SmfFile, Error>)
    requires
        results@.len() > 0 && results@[0].track_events@.len() > 0 ==> results@[0].palette@.len() > 0
            && tracks_cover_palette(results@),
    ensures
        results@.len() == 0 ==> r matches Err(Error::Midi(_)),
        results@.len() > 0 && results@[0].track_events@.len() == 0 ==> r matches Err(Error::Midi(_)),
        results@.len() > 0 && results@[0].track_events@.len() > 0 ==> (r is Err <==> has_stray_color_event(
            results@,
            results@[0].palette@.len() as int,
        )),
        r matches Err(e) ==> e is Midi,
        r matches Ok(file) ==> {
            &&& file.ppq == config.ppq
            &&& file.tracks@.len() == results@[0].palette@.len()
            &&& forall|t: int| 0 <= t < file.tracks@.len() ==> #[trigger] track_view(file.tracks@[t]@) == file_track(results@, *config, t)
        },
{
    if results.len() == 0 {
        return Err(Error::Midi("no conversion results to write".to_string()));
    }
    if results[0].track_events.len() == 0 {
        return Err(Error::Midi("no tracks in conversion result".to_string()));
    }
    let palette = &results[0].palette;
    let track_count = palette.len();
    let mut tracks: Vec<Vec<SmfEvent>> = Vec::new();
    let mut track: usize = 0;
    while track < track_count
        invariant
            results@.len() > 0,
            *palette == results@[0].palette,
            track_count == palette@.len(),
            tracks_cover_palette(results@),
            track <= track_count,
            tracks@.len() == track,
            forall|t: int| 0 <= t < track ==> !#[trigger] track_has_stray_color(results@, t),
            forall|t: int| 0 <= t < track ==> #[trigger] track_view(tracks@[t]@) == encode_track(
                sort_by_tick(pending_events(results@, *config, t)),
                t,
                palette@,
            ),
        decreases track_count - track,
    {
        let pending = match collect_pending(results, config, track) {
            Ok(p) => p,
            Err(e) => {
                proof {
                    assert(has_stray_color_event(results@, track_count as int)) by {
                        assert(track_has_stray_color(results@, track as int));
                    }
                }
                return Err(e);
            },
        };
        let sorted = sort_pending(&pending);
        proof {
            law_sorted_by_tick(pending@);
        }
        let events = encode_sorted(&sorted, track, palette);
        tracks.push(events);
        track = track + 1;
    }
    let bpm: u32 = if config.bpm == 0 {
        1
    } else {
        config.bpm as u32
    };
    let tempo: u32 = 60_000_000 / bpm;
    let ghost first = tracks@[0]@;
    tracks[0].insert(0, SmfEvent { delta: 0, kind: SmfEventKind::Tempo { tempo } });
    proof {
        assert(track_view(tracks@[0]@) =~= seq![SmfEventModel { delta: 0, kind: SmfKindModel::Tempo { tempo: tempo_of(config.bpm) } }] + track_view(first));
        assert forall|t: int| 0 <= t < tracks@.len() implies #[trigger] track_view(tracks@[t]@) == file_track(results@, *config, t) by {}
        assert(!has_stray_color_event(results@, track_count as int));
    }
    Ok(SmfFile { ppq: config.ppq, tracks })
}

/// The first track opens with the tempo: its first event, at delta `0`, is
/// a tempo meta event of `60_000_000 / max(bpm, 1)` microseconds per
/// quarter note, so that `tempo * beats` stays within one beat's worth of
/// microseconds of a minute.
pub proof fn law_tempo_opens_first_track(results: Seq<&ConversionResult>, config: ConverterConfig)
    ensures
        ({
            let beats = if config.bpm >= 1 { config.bpm as int } else { 1int };
            let first = file_track(results, config, 0)[0];
            &&& first.delta == 0
            &&& first.kind matches SmfKindModel::Tempo { tempo } && tempo == 60_000_000int / beats
                && tempo * beats <= 60_000_000int < (tempo + 1) * beats
        }),
{
    let beats = if config.bpm >= 1 { config.bpm as int } else { 1int };
    let q = 60_000_000int / beats;
    assert(q * beats <= 60_000_000int < (q + 1) * beats) by (nonlinear_arith)
        requires
            beats >= 1,
            q == 60_000_000int / beats,
    ;
    assert(0 <= q <= 60_000_000int) by (nonlinear_arith)
        requires
            beats >= 1,
            q == 60_000_000int / beats,
    ;
    assert(tempo_of(config.bpm) == q);
}

} // verus!

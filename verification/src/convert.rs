//! The image to note-events conversion.
//!
//! The resized image is scanned bottom to top like a piano roll: column `c`
//! plays one key, each row advances time by one tick, and every maximal
//! vertical run of one color in a column becomes one note on that color's
//! track. The scanner works on the color id of every pixel (the palette index
//! matched to it, or [`TRANSPARENT_ID`]).

use crate::color::{Color, Palette};
use crate::config::{ConverterConfig, KeyMode, NoteLengthMode};
use crate::error::Error;
use crate::image::RgbaImage;
use crate::match_color::TRANSPARENT_ID;
use crate::midi::events::MidiEvent;
use crate::midi::TimedMidiEvent;
use crate::progress::{flag_is_set, RowProgress};
use crate::utils::{is_white_key, white_key};
use std::sync::atomic::AtomicBool;
use vstd::prelude::*;

verus! {

/// The outcome of scanning one image.
#[derive(Clone, Debug, Default)]
pub struct ConversionResult {
    /// Total number of notes (note-on events) across all tracks.
    pub note_count: usize,
    /// `note_count_per_color[i]` is the number of notes in track `i`.
    pub note_count_per_color: Vec<usize>,
    /// Timed events per color track, in pixel rows.
    pub track_events: Vec<Vec<TimedMidiEvent>>,
    /// Height of the scanned image: the total duration in rows.
    pub height: u32,
    /// The palette used for this conversion.
    pub palette: Vec<Color>,
}

/// What the conversion needs before scanning: the key list and the size the
/// image is resized to.
#[derive(Clone, Debug)]
pub struct ConversionPlan {
    /// The MIDI keys in column order.
    pub key_list: Vec<u8>,
    /// Target width (one column per usable key).
    pub width: u32,
    /// Target height in rows.
    pub height: u32,
}

// ---------------------------------------------------------------------------
// Key lists
// ---------------------------------------------------------------------------

/// The keys `start..=end` in ascending order.
pub open spec fn key_range(start: u8, end: u8) -> Seq<u8> {
    if start > end {
        Seq::empty()
    } else {
        Seq::new((end - start + 1) as nat, |i: int| (start + i) as u8)
    }
}

/// The "filled" modes keep only the keys of one color; the image width
/// is then the number of those keys.
pub open spec fn is_filled_mode(mode: KeyMode) -> bool {
    mode == KeyMode::WhiteKeysFilled || mode == KeyMode::BlackKeysFilled
}

/// The ordered list of MIDI keys used for a key range and mode.
pub open spec fn key_list_of(start: u8, end: u8, mode: KeyMode) -> Seq<u8> {
    if mode == KeyMode::WhiteKeysFilled {
        key_range(start, end).filter(|k: u8| white_key(k as int))
    } else if mode == KeyMode::BlackKeysFilled {
        key_range(start, end).filter(|k: u8| !white_key(k as int))
    } else {
        key_range(start, end)
    }
}

/// Build the ordered list of MIDI keys used for the given range and mode:
/// every key of `start_key..=end_key`, or only its white (black) keys in
/// the white (black) "filled" mode.
pub fn build_key_list(start_key: u8, end_key: u8, mode: KeyMode) -> (keys: Vec<u8>)
    ensures
        keys@ == key_list_of(start_key, end_key, mode),
{
    let mut keys: Vec<u8> = Vec::new();
    if start_key > end_key {
        proof {
            assert(key_range(start_key, end_key).filter(|k: u8| white_key(k as int)) =~= Seq::empty());
            assert(key_range(start_key, end_key).filter(|k: u8| !white_key(k as int)) =~= Seq::empty());
        }
        return keys;
    }
    let ghost range = key_range(start_key, end_key);
    let mut key: u16 = start_key as u16;
    while key <= end_key as u16
        invariant
            start_key <= end_key,
            range == key_range(start_key, end_key),
            start_key <= key <= end_key as u16 + 1,
            keys@ == if mode == KeyMode::WhiteKeysFilled {
                range.take(key - start_key).filter(|k: u8| white_key(k as int))
            } else if mode == KeyMode::BlackKeysFilled {
                range.take(key - start_key).filter(|k: u8| !white_key(k as int))
            } else {
                range.take(key - start_key)
            },
        decreases end_key as u16 + 1 - key,
    {
        let k = key as u8;
        let ghost n = key - start_key;
        proof {
            assert(range.take(n + 1) == range.take(n).push(k));
            range.take(n).lemma_filter_push(k, |k: u8| white_key(k as int));
            range.take(n).lemma_filter_push(k, |k: u8| !white_key(k as int));
        }
        let keep = match mode {
            KeyMode::WhiteKeysFilled => is_white_key(k),
            KeyMode::BlackKeysFilled => !is_white_key(k),
            _ => true,
        };
        if keep {
            keys.push(k);
        }
        key = key + 1;
    }
    proof {
        assert(range.take(range.len() as int) == range);
    }
    keys
}

proof fn lemma_filter_split(keys: Seq<u8>)
    ensures
        keys.filter(|k: u8| white_key(k as int)).len() + keys.filter(|k: u8| !white_key(k as int)).len() == keys.len(),
    decreases keys.len(),
{
    if keys.len() > 0 {
        let prefix = keys.drop_last();
        lemma_filter_split(prefix);
        assert(prefix.push(keys.last()) == keys);
        prefix.lemma_filter_push(keys.last(), |k: u8| white_key(k as int));
        prefix.lemma_filter_push(keys.last(), |k: u8| !white_key(k as int));
    }
}

/// The white-filled and the black-filled key lists split the key range: each
/// key of `start..=end` is in exactly one of them, so their lengths add up
/// to the length of the full list, and each holds only keys of its color.
pub proof fn law_key_lists_partition(start: u8, end: u8)
    ensures
        key_list_of(start, end, KeyMode::WhiteKeysFilled).len() + key_list_of(start, end, KeyMode::BlackKeysFilled).len()
            == key_list_of(start, end, KeyMode::AllKeys).len(),
        forall|i: int|
            0 <= i < key_list_of(start, end, KeyMode::WhiteKeysFilled).len() ==> white_key(
                #[trigger] key_list_of(start, end, KeyMode::WhiteKeysFilled)[i] as int,
            ),
        forall|i: int|
            0 <= i < key_list_of(start, end, KeyMode::BlackKeysFilled).len() ==> !white_key(
                #[trigger] key_list_of(start, end, KeyMode::BlackKeysFilled)[i] as int,
            ),
{
    let range = key_range(start, end);
    lemma_filter_split(range);
    let white = range.filter(|k: u8| white_key(k as int));
    let black = range.filter(|k: u8| !white_key(k as int));
    assert forall|i: int| 0 <= i < white.len() implies white_key(#[trigger] white[i] as int) by {
        range.lemma_filter_pred(|k: u8| white_key(k as int), i);
    }
    assert forall|i: int| 0 <= i < black.len() implies !white_key(#[trigger] black[i] as int) by {
        range.lemma_filter_pred(|k: u8| !white_key(k as int), i);
    }
}

// ---------------------------------------------------------------------------
// The scan, as a specification
// ---------------------------------------------------------------------------

/// The inputs of a scan, as mathematical values.
pub struct ScanInput {
    /// Color id of pixel `(column, row)` at index `row * width + column`.
    pub ids: Seq<i32>,
    /// Image width (columns).
    pub width: int,
    /// Image height (rows).
    pub height: int,
    /// Number of tracks (palette size).
    pub track_count: int,
    /// The key list.
    pub keys: Seq<u8>,
    /// Column to key mapping.
    pub key_mode: KeyMode,
    /// Note-length limiting mode.
    pub length_mode: NoteLengthMode,
    /// Maximum note length in rows (`0` = unlimited).
    pub max_len: int,
}

/// The scan input of a call.
pub open spec fn scan_input(
    ids: Seq<i32>,
    width: u32,
    height: u32,
    track_count: nat,
    keys: Seq<u8>,
    config: ConverterConfig,
) -> ScanInput {
    ScanInput {
        ids,
        width: width as int,
        height: height as int,
        track_count: track_count as int,
        keys,
        key_mode: config.key_mode,
        length_mode: config.note_length_mode,
        max_len: config.max_note_length as int,
    }
}

/// The key that column byte `column` plays, if any.
pub open spec fn key_for_column(column: int, keys: Seq<u8>, mode: KeyMode) -> Option<u8> {
    let candidate: Option<u8> = if mode == KeyMode::WhiteKeysFixed || mode == KeyMode::BlackKeysFixed {
        if keys.len() > 0 {
            Some((keys[0] + column) as u8)
        } else {
            None
        }
    } else if column < keys.len() {
        Some(keys[column])
    } else {
        None
    };
    match candidate {
        Some(k) => if (mode == KeyMode::WhiteKeysFixed || mode == KeyMode::WhiteKeysClipped) && !white_key(k as int) {
            None
        } else if (mode == KeyMode::BlackKeysFixed || mode == KeyMode::BlackKeysClipped) && white_key(k as int) {
            None
        } else {
            Some(k)
        },
        None => None,
    }
}

/// In the "fixed" modes the first key plus any column byte stays a key.
pub open spec fn fixed_keys_fit(keys: Seq<u8>, mode: KeyMode, width: int) -> bool {
    (mode == KeyMode::WhiteKeysFixed || mode == KeyMode::BlackKeysFixed) && keys.len() > 0 ==>
        (width > 0 ==> keys[0] + (if width - 1 < 255 { width - 1 } else { 255 }) <= 255)
}

/// The key of column `c` (the column index is taken as a byte).
pub open spec fn column_key(s: ScanInput, c: int) -> Option<u8> {
    key_for_column(c % 256, s.keys, s.key_mode)
}

/// Ids outside the palette count as transparent.
pub open spec fn sanitize_id(id: i32, track_count: int) -> i32 {
    if id < 0 || id >= track_count {
        TRANSPARENT_ID
    } else {
        id
    }
}

/// The (sanitized) color id of column `c` at time `t`; time `0` is the
/// bottom row.
pub open spec fn id_at(s: ScanInput, c: int, t: int) -> i32 {
    sanitize_id(s.ids[(s.height - 1 - t) * s.width + c], s.track_count)
}

/// The "last note start" every column begins with.
pub open spec fn initial_last_on(s: ScanInput) -> int {
    if s.max_len > 0 && s.length_mode == NoteLengthMode::FlowWithColor {
        -(s.max_len + 1)
    } else {
        0
    }
}

/// Whether the note-length limit forces a new note at time `t` in a column
/// whose current note started at `last_on`.
pub open spec fn forces_new_note(s: ScanInput, t: int, last_on: int) -> bool {
    if s.max_len == 0 {
        false
    } else {
        match s.length_mode {
            NoteLengthMode::Unlimited => false,
            NoteLengthMode::SplitToGrid => t > 0 && t % s.max_len == 0,
            NoteLengthMode::FlowWithColor => t - last_on >= s.max_len,
        }
    }
}

/// The state of column `c` before time `t`: the color currently ringing and
/// the time its note started.
pub open spec fn column_state(s: ScanInput, c: int, t: int) -> (i32, int)
    decreases t,
{
    if t <= 0 {
        (TRANSPARENT_ID, initial_last_on(s))
    } else {
        let (color, last_on) = column_state(s, c, t - 1);
        match column_key(s, c) {
            None => (TRANSPARENT_ID, last_on),
            Some(_) => {
                let new_color = id_at(s, c, t - 1);
                if new_color != color || forces_new_note(s, t - 1, last_on) {
                    (new_color, t - 1)
                } else {
                    (color, last_on)
                }
            },
        }
    }
}

/// A color id that names a track.
pub open spec fn is_track(s: ScanInput, color: i32) -> bool {
    0 <= color < s.track_count
}

/// The events that column `c` adds to track `k` at time `t`: the ringing
/// note is closed and a new one opened when the color changes or the length
/// limit forces it.
pub open spec fn step_events(s: ScanInput, c: int, t: int, k: int) -> Seq<TimedMidiEvent> {
    let (old_color, last_on) = column_state(s, c, t);
    match column_key(s, c) {
        None => Seq::empty(),
        Some(key) => {
            let new_color = id_at(s, c, t);
            if new_color != old_color || forces_new_note(s, t, last_on) {
                let off: Seq<TimedMidiEvent> = if is_track(s, old_color) && old_color == k {
                    seq![TimedMidiEvent { tick: t as u64, event: MidiEvent::NoteOff { channel: 0, key, velocity: 0 } }]
                } else {
                    Seq::empty()
                };
                let on: Seq<TimedMidiEvent> = if is_track(s, new_color) && new_color == k {
                    seq![TimedMidiEvent { tick: t as u64, event: MidiEvent::NoteOn { channel: 0, key, velocity: 1 } }]
                } else {
                    Seq::empty()
                };
                off + on
            } else {
                Seq::empty()
            }
        },
    }
}

/// Events of track `k` from columns `0..n` at time `t`.
pub open spec fn row_events(s: ScanInput, k: int, t: int, n: int) -> Seq<TimedMidiEvent>
    decreases n,
{
    if n <= 0 {
        Seq::empty()
    } else {
        row_events(s, k, t, n - 1) + step_events(s, n - 1, t, k)
    }
}

/// Events of track `k` from times `0..t`.
pub open spec fn scan_events(s: ScanInput, k: int, t: int) -> Seq<TimedMidiEvent>
    decreases t,
{
    if t <= 0 {
        Seq::empty()
    } else {
        scan_events(s, k, t - 1) + row_events(s, k, t - 1, s.width)
    }
}

/// The note-off that closes column `c`'s ringing note (color `colors[c]`) on
/// track `k` at time `tick`, if any.
pub open spec fn closing_off(
    colors: Seq<i32>,
    keys: Seq<u8>,
    mode: KeyMode,
    track_count: int,
    tick: int,
    c: int,
    k: int,
) -> Seq<TimedMidiEvent> {
    match key_for_column(c % 256, keys, mode) {
        None => Seq::empty(),
        Some(key) => {
            let color = colors[c];
            if 0 <= color < track_count && color == k {
                seq![TimedMidiEvent { tick: tick as u64, event: MidiEvent::NoteOff { channel: 0, key, velocity: 0 } }]
            } else {
                Seq::empty()
            }
        },
    }
}

/// Closing note-offs of track `k` from columns `0..n`.
pub open spec fn closing_events(
    colors: Seq<i32>,
    keys: Seq<u8>,
    mode: KeyMode,
    track_count: int,
    tick: int,
    k: int,
    n: int,
) -> Seq<TimedMidiEvent>
    decreases n,
{
    if n <= 0 {
        Seq::empty()
    } else {
        closing_events(colors, keys, mode, track_count, tick, k, n - 1) + closing_off(
            colors,
            keys,
            mode,
            track_count,
            tick,
            n - 1,
            k,
        )
    }
}

/// The colors ringing in every column once the top row is done.
pub open spec fn final_colors(s: ScanInput) -> Seq<i32> {
    Seq::new(s.width as nat, |c: int| column_state(s, c, s.height).0)
}

/// Closing note-offs of track `k` at the top edge.
pub open spec fn final_events(s: ScanInput, k: int) -> Seq<TimedMidiEvent> {
    closing_events(final_colors(s), s.keys, s.key_mode, s.track_count, s.height, k, s.width)
}

/// All events of track `k`.
pub open spec fn track_of(s: ScanInput, k: int) -> Seq<TimedMidiEvent> {
    scan_events(s, k, s.height) + final_events(s, k)
}

/// Whether a timed event is a note-on.
pub open spec fn is_note_on(e: TimedMidiEvent) -> bool {
    e.event is NoteOn
}

/// Number of note-on events in a sequence.
pub open spec fn count_note_ons(events: Seq<TimedMidiEvent>) -> int
    decreases events.len(),
{
    if events.len() == 0 {
        0
    } else {
        count_note_ons(events.drop_last()) + if is_note_on(events.last()) {
            1int
        } else {
            0int
        }
    }
}

/// Sum of a sequence of counts.
pub open spec fn seq_sum(counts: Seq<usize>) -> int
    decreases counts.len(),
{
    if counts.len() == 0 {
        0
    } else {
        seq_sum(counts.drop_last()) + counts.last()
    }
}

/// The whole outcome of a scan, as the result of [`scan_notes`] holds it.
pub open spec fn is_scan_result(s: ScanInput, palette: Seq<Color>, res: ConversionResult) -> bool {
    &&& res.height == s.height
    &&& res.palette@ == palette
    &&& res.track_events@.len() == s.track_count
    &&& forall|k: int| 0 <= k < s.track_count ==> #[trigger] res.track_events@[k]@ == track_of(s, k)
    &&& res.note_count_per_color@.len() == s.track_count
    &&& forall|k: int|
        0 <= k < s.track_count ==> #[trigger] res.note_count_per_color@[k] == count_note_ons(track_of(s, k))
    &&& res.note_count == seq_sum(res.note_count_per_color@)
}

// ---------------------------------------------------------------------------
// Helper lemmas
// ---------------------------------------------------------------------------

proof fn lemma_count_push(events: Seq<TimedMidiEvent>, e: TimedMidiEvent)
    ensures
        count_note_ons(events.push(e)) == count_note_ons(events) + if is_note_on(e) {
            1int
        } else {
            0int
        },
{
    assert(events.push(e).drop_last() == events);
}

proof fn lemma_count_nonneg(events: Seq<TimedMidiEvent>)
    ensures
        0 <= count_note_ons(events) <= events.len(),
    decreases events.len(),
{
    if events.len() > 0 {
        lemma_count_nonneg(events.drop_last());
    }
}

proof fn lemma_sum_update(counts: Seq<usize>, i: int, v: usize)
    requires
        0 <= i < counts.len(),
    ensures
        seq_sum(counts.update(i, v)) == seq_sum(counts) - counts[i] + v,
    decreases counts.len(),
{
    let u = counts.update(i, v);
    if i == counts.len() - 1 {
        assert(u.drop_last() == counts.drop_last());
    } else {
        lemma_sum_update(counts.drop_last(), i, v);
        assert(u.drop_last() == counts.drop_last().update(i, v));
    }
}

proof fn lemma_sum_zeros(counts: Seq<usize>)
    requires
        forall|i: int| 0 <= i < counts.len() ==> counts[i] == 0,
    ensures
        seq_sum(counts) == 0,
    decreases counts.len(),
{
    if counts.len() > 0 {
        lemma_sum_zeros(counts.drop_last());
    }
}

proof fn lemma_grid_index(row: int, column: int, width: int, height: int)
    requires
        0 <= row < height,
        0 <= column < width,
    ensures
        0 <= row * width + column < width * height,
        row * width + column + 1 <= width * height,
{
    assert(0 <= row * width) by (nonlinear_arith)
        requires
            0 <= row,
            0 <= width,
    ;
    assert(row * width + column < width * height) by (nonlinear_arith)
        requires
            0 <= row < height,
            0 <= column < width,
    ;
}

proof fn lemma_steps_bound(t: int, c: int, width: int, height: int)
    requires
        0 <= t < height,
        0 <= c < width,
    ensures
        t * width + c + 1 <= width * height,
        (t + 1) * width == t * width + width,
{
    lemma_grid_index(t, c, width, height);
    assert((t + 1) * width == t * width + width) by (nonlinear_arith);
}

// ---------------------------------------------------------------------------
// Executable scan
// ---------------------------------------------------------------------------

/// The key played by column byte `column`: position `column` of the key
/// list, or `key_list[0] + column` in the "fixed" modes. In the "clipped"
/// and "fixed" modes columns that land on a key of the other color play
/// nothing.
pub fn resolve_key(column: u8, key_list: &Vec<u8>, mode: KeyMode) -> (r: Option<u8>)
    requires
        (mode == KeyMode::WhiteKeysFixed || mode == KeyMode::BlackKeysFixed) && key_list@.len() > 0 ==>
            key_list@[0] + column <= 255,
    ensures
        r == key_for_column(column as int, key_list@, mode),
{
    let col = column as usize;
    let midi_key: u8 = match mode {
        KeyMode::WhiteKeysFixed | KeyMode::BlackKeysFixed => {
            if key_list.len() == 0 {
                return None;
            }
            key_list[0] + column
        },
        _ => {
            if col >= key_list.len() {
                return None;
            }
            key_list[col]
        },
    };
    match mode {
        KeyMode::WhiteKeysFixed | KeyMode::WhiteKeysClipped => {
            if !is_white_key(midi_key) {
                None
            } else {
                Some(midi_key)
            }
        },
        KeyMode::BlackKeysFixed | KeyMode::BlackKeysClipped => {
            if is_white_key(midi_key) {
                None
            } else {
                Some(midi_key)
            }
        },
        _ => Some(midi_key),
    }
}

/// Whether the note-length limit forces a new note in `column` at `time`
/// (image row `row`, counted from the top).
pub fn should_start_new_note(
    time: u64,
    height: u32,
    row: u32,
    column: usize,
    use_max_length: bool,
    config: &ConverterConfig,
    last_on_times: &Vec<i64>,
) -> (r: bool)
    requires
        row < height,
        column < last_on_times@.len(),
        use_max_length ==> config.max_note_length > 0,
        config.note_length_mode == NoteLengthMode::FlowWithColor && use_max_length ==> {
            let t = if time <= i64::MAX { time as int } else { i64::MAX as int };
            i64::MIN <= t - last_on_times@[column as int] <= i64::MAX
        },
    ensures
        r == (use_max_length && match config.note_length_mode {
            NoteLengthMode::Unlimited => false,
            NoteLengthMode::SplitToGrid => {
                let from_bottom = height - 1 - row;
                from_bottom > 0 && from_bottom % (config.max_note_length as int) == 0
            },
            NoteLengthMode::FlowWithColor => {
                let t = if time <= i64::MAX { time as int } else { i64::MAX as int };
                t - last_on_times@[column as int] >= config.max_note_length
            },
        }),
{
    if !use_max_length {
        return false;
    }
    match config.note_length_mode {
        NoteLengthMode::Unlimited => false,
        NoteLengthMode::SplitToGrid => {
            let row_from_bottom = height - 1 - row;
            row_from_bottom > 0 && row_from_bottom % config.max_note_length == 0
        },
        NoteLengthMode::FlowWithColor => {
            let t: i64 = if time <= i64::MAX as u64 {
                time as i64
            } else {
                i64::MAX
            };
            let time_since_last_on = t - last_on_times[column];
            time_since_last_on >= config.max_note_length as i64
        },
    }
}

/// Append the note-off that closes every column's ringing note at `time`.
pub fn emit_final_note_offs(
    tracks: &mut Vec<Vec<TimedMidiEvent>>,
    column_colors: &Vec<i32>,
    key_list: &Vec<u8>,
    config: &ConverterConfig,
    width: u32,
    time: u64,
)
    requires
        column_colors@.len() == width,
        fixed_keys_fit(key_list@, config.key_mode, width as int),
    ensures
        final(tracks)@.len() == old(tracks)@.len(),
        forall|k: int|
            0 <= k < old(tracks)@.len() ==> #[trigger] final(tracks)@[k]@ == old(tracks)@[k]@ + closing_events(
                column_colors@,
                key_list@,
                config.key_mode,
                old(tracks)@.len() as int,
                time as int,
                k,
                width as int,
            ),
{
    let track_count = tracks.len();
    let ghost start = tracks@;
    let mut column: u32 = 0;
    while column < width
        invariant
            column <= width,
            column_colors@.len() == width,
            fixed_keys_fit(key_list@, config.key_mode, width as int),
            track_count == start.len(),
            tracks@.len() == track_count,
            forall|k: int|
                0 <= k < track_count ==> #[trigger] tracks@[k]@ == start[k]@ + closing_events(
                    column_colors@,
                    key_list@,
                    config.key_mode,
                    track_count as int,
                    time as int,
                    k,
                    column as int,
                ),
        decreases width - column,
    {
        let ghost before = tracks@;
        let byte = (column % 256) as u8;
        proof {
            if (config.key_mode == KeyMode::WhiteKeysFixed || config.key_mode == KeyMode::BlackKeysFixed)
                && key_list@.len() > 0 {
                assert(key_list@[0] + (column as int) % 256 <= 255);
            }
        }
        let key_result = resolve_key(byte, key_list, config.key_mode);
        if let Some(midi_key) = key_result {
            let color = column_colors[column as usize];
            if color >= 0 && (color as usize) < track_count {
                let track = color as usize;
                tracks[track].push(TimedMidiEvent::new(time, MidiEvent::note_off(0, midi_key, 0)));
            }
        }
        proof {
            assert forall|k: int| 0 <= k < track_count implies #[trigger] tracks@[k]@ == start[k]@ + closing_events(
                column_colors@,
                key_list@,
                config.key_mode,
                track_count as int,
                time as int,
                k,
                column + 1,
            ) by {
                assert(before[k]@ == start[k]@ + closing_events(
                    column_colors@,
                    key_list@,
                    config.key_mode,
                    track_count as int,
                    time as int,
                    k,
                    column as int,
                ));
            }
        }
        column = column + 1;
    }
}

proof fn lemma_elem_le_sum(counts: Seq<usize>, i: int)
    requires
        0 <= i < counts.len(),
    ensures
        counts[i] <= seq_sum(counts),
        0 <= seq_sum(counts),
    decreases counts.len(),
{
    lemma_sum_nonneg(counts.drop_last());
    if i < counts.len() - 1 {
        lemma_elem_le_sum(counts.drop_last(), i);
    }
}

proof fn lemma_sum_nonneg(counts: Seq<usize>)
    ensures
        0 <= seq_sum(counts),
    decreases counts.len(),
{
    if counts.len() > 0 {
        lemma_sum_nonneg(counts.drop_last());
    }
}

proof fn lemma_count_append(a: Seq<TimedMidiEvent>, b: Seq<TimedMidiEvent>)
    ensures
        count_note_ons(a + b) == count_note_ons(a) + count_note_ons(b),
    decreases b.len(),
{
    if b.len() == 0 {
        assert(a + b == a);
    } else {
        lemma_count_append(a, b.drop_last());
        assert((a + b).drop_last() == a + b.drop_last());
    }
}

proof fn lemma_closing_no_ons(
    colors: Seq<i32>,
    keys: Seq<u8>,
    mode: KeyMode,
    track_count: int,
    tick: int,
    k: int,
    n: int,
)
    ensures
        count_note_ons(closing_events(colors, keys, mode, track_count, tick, k, n)) == 0,
    decreases n,
{
    if n > 0 {
        lemma_closing_no_ons(colors, keys, mode, track_count, tick, k, n - 1);
        lemma_count_append(
            closing_events(colors, keys, mode, track_count, tick, k, n - 1),
            closing_off(colors, keys, mode, track_count, tick, n - 1, k),
        );
        let e = closing_off(colors, keys, mode, track_count, tick, n - 1, k);
        if e.len() > 0 {
            assert(e.drop_last() =~= Seq::<TimedMidiEvent>::empty());
            assert(!is_note_on(e.last()));
            assert(count_note_ons(Seq::<TimedMidiEvent>::empty()) == 0);
        }
        assert(count_note_ons(e) == 0);
    }
}

/// One step of the scan: column `column` at time `time` (image row `row`).
fn scan_column(
    tracks: &mut Vec<Vec<TimedMidiEvent>>,
    counts: &mut Vec<usize>,
    total: &mut usize,
    column_colors: &mut Vec<i32>,
    last_on_times: &mut Vec<i64>,
    color_ids: &Vec<i32>,
    width: u32,
    height: u32,
    row: u32,
    column: u32,
    time: u64,
    palette: &Palette,
    key_list: &Vec<u8>,
    config: &ConverterConfig,
)
    requires
        color_ids@.len() == width * height,
        width * height <= usize::MAX,
        fixed_keys_fit(key_list@, config.key_mode, width as int),
        palette.colors@.len() <= i32::MAX,
        row < height,
        column < width,
        time == height - 1 - row,
        old(column_colors)@.len() == width,
        old(last_on_times)@.len() == width,
        (old(column_colors)@[column as int], old(last_on_times)@[column as int] as int) == column_state(
            scan_input(color_ids@, width, height, palette.colors@.len(), key_list@, *config),
            column as int,
            time as int,
        ),
        forall|c: int| 0 <= c < width ==> #[trigger] old(last_on_times)@[c] >= -(config.max_note_length as int) - 1,
        forall|c: int| 0 <= c < width ==> #[trigger] old(last_on_times)@[c] <= time,
        old(tracks)@.len() == palette.colors@.len(),
        old(counts)@.len() == palette.colors@.len(),
        forall|j: int| 0 <= j < old(tracks)@.len() ==> #[trigger] old(counts)@[j] == count_note_ons(old(tracks)@[j]@),
        *old(total) == seq_sum(old(counts)@),
        *old(total) <= time * width + column,
    ensures
        ({
            let s = scan_input(color_ids@, width, height, palette.colors@.len(), key_list@, *config);
            &&& final(column_colors)@ == old(column_colors)@.update(column as int, column_state(s, column as int, time + 1).0)
            &&& final(last_on_times)@ == old(last_on_times)@.update(column as int, column_state(s, column as int, time + 1).1 as i64)
            &&& column_state(s, column as int, time + 1).1 == final(last_on_times)@[column as int]
            &&& final(tracks)@.len() == old(tracks)@.len()
            &&& forall|j: int| 0 <= j < old(tracks)@.len() ==> #[trigger] final(tracks)@[j]@ == old(tracks)@[j]@ + step_events(s, column as int, time as int, j)
        }),
        forall|c: int| 0 <= c < width ==> #[trigger] final(last_on_times)@[c] >= -(config.max_note_length as int) - 1,
        forall|c: int| 0 <= c < width ==> #[trigger] final(last_on_times)@[c] <= time,
        final(counts)@.len() == old(counts)@.len(),
        forall|j: int| 0 <= j < final(tracks)@.len() ==> #[trigger] final(counts)@[j] == count_note_ons(final(tracks)@[j]@),
        *final(total) == seq_sum(final(counts)@),
        *final(total) <= time * width + column + 1,
{
    let ghost s = scan_input(color_ids@, width, height, palette.colors@.len(), key_list@, *config);
    let ghost t = time as int;
    let track_count = palette.colors.len();
    proof {
        lemma_steps_bound(t, column as int, width as int, height as int);
        lemma_grid_index(row as int, column as int, width as int, height as int);
        if (config.key_mode == KeyMode::WhiteKeysFixed || config.key_mode == KeyMode::BlackKeysFixed)
            && key_list@.len() > 0 {
            assert(key_list@[0] + (column as int) % 256 <= 255);
        }
    }
    let ghost before = tracks@;
    let c = column as usize;
    let key_result = resolve_key((column % 256) as u8, key_list, config.key_mode);
    match key_result {
        None => {
            column_colors.set(c, TRANSPARENT_ID);
            proof {
                assert(last_on_times@ == last_on_times@.update(column as int, column_state(s, column as int, time + 1).1 as i64));
                assert forall|j: int| 0 <= j < before.len() implies #[trigger] tracks@[j]@ == before[j]@ + step_events(s, column as int, t, j) by {
                    assert(before[j]@ + Seq::empty() == before[j]@);
                }
            }
        },
        Some(midi_key) => {
            let index = row as usize * width as usize + c;
            let raw = color_ids[index];
            let new_color: i32 = if raw < 0 || raw >= track_count as i32 {
                TRANSPARENT_ID
            } else {
                raw
            };
            let old_color = column_colors[c];
            let color_changed = new_color != old_color;
            let use_max_length = config.max_note_length > 0;
            let new_note = should_start_new_note(time, height, row, c, use_max_length, config, last_on_times);
            if color_changed || new_note {
                let ghost off_e = TimedMidiEvent { tick: time, event: MidiEvent::NoteOff { channel: 0, key: midi_key, velocity: 0 } };
                let ghost on_e = TimedMidiEvent { tick: time, event: MidiEvent::NoteOn { channel: 0, key: midi_key, velocity: 1 } };
                if old_color >= 0 && (old_color as usize) < track_count {
                    let track = old_color as usize;
                    let ghost pre = tracks@[track as int]@;
                    tracks[track].push(TimedMidiEvent::new(time, MidiEvent::note_off(0, midi_key, 0)));
                    proof {
                        lemma_count_push(pre, off_e);
                    }
                }
                let ghost mid = tracks@;
                if new_color >= 0 && (new_color as usize) < track_count {
                    let track = new_color as usize;
                    let ghost pre = tracks@[track as int]@;
                    proof {
                        lemma_elem_le_sum(counts@, track as int);
                    }
                    tracks[track].push(TimedMidiEvent::new(time, MidiEvent::note_on(0, midi_key, 1)));
                    proof {
                        lemma_count_push(pre, on_e);
                        lemma_sum_update(counts@, track as int, (counts@[track as int] + 1) as usize);
                    }
                    counts.set(track, counts[track] + 1);
                    *total = *total + 1;
                }
                column_colors.set(c, new_color);
                last_on_times.set(c, time as i64);
                proof {
                    assert forall|j: int| 0 <= j < before.len() implies #[trigger] tracks@[j]@ == before[j]@ + step_events(s, column as int, t, j) by {
                        let off_part: Seq<TimedMidiEvent> = if is_track(s, old_color) && old_color == j { seq![off_e] } else { Seq::empty() };
                        let on_part: Seq<TimedMidiEvent> = if is_track(s, new_color) && new_color == j { seq![on_e] } else { Seq::empty() };
                        assert(step_events(s, column as int, t, j) == off_part + on_part);
                        assert(mid[j]@ == before[j]@ + off_part);
                        assert(tracks@[j]@ == mid[j]@ + on_part);
                        assert(before[j]@ + off_part + on_part == before[j]@ + (off_part + on_part));
                    }
                }
            } else {
                proof {
                    assert(column_colors@ == column_colors@.update(column as int, column_state(s, column as int, time + 1).0));
                    assert(last_on_times@ == last_on_times@.update(column as int, column_state(s, column as int, time + 1).1 as i64));
                    assert forall|j: int| 0 <= j < before.len() implies #[trigger] tracks@[j]@ == before[j]@ + step_events(s, column as int, t, j) by {
                        assert(before[j]@ + Seq::empty() == before[j]@);
                    }
                }
            }
        },
    }
}

/// Scan a resized image, given as the color id of every pixel
/// (`color_ids[row * width + column]`, bottom row last), into note events.
///
/// Each column plays `resolve_key(column)`; scanning runs bottom-up, one
/// tick per row. When a column's color changes, or the note-length limit
/// forces it, the ringing note is closed (note-off, velocity 0) and a note
/// of the new color opened (note-on, velocity 1) on that color's track;
/// transparent pixels and ids outside the palette ring no note. All notes
/// still ringing are closed at tick `height`.
///
/// Fails with [`Error::Resize`] when the image is empty, and with
/// [`Error::Cancelled`] when `cancel` is found set at the start of a row.
/// After each row whose index is a multiple of 32, `progress` hears of it.
pub fn scan_notes<P: RowProgress>(
    color_ids: &Vec<i32>,
    width: u32,
    height: u32,
    palette: &Palette,
    key_list: &Vec<u8>,
    config: &ConverterConfig,
    cancel: &AtomicBool,
    progress: &P,
) -> (r: Result<ConversionResult, Error>)
    requires
        color_ids@.len() == width * height,
        palette.colors@.len() <= i32::MAX,
        fixed_keys_fit(key_list@, config.key_mode, width as int),
    ensures
        width == 0 || height == 0 ==> r matches Err(Error::Resize(_)),
        r matches Err(e) ==> (e is Resize && (width == 0 || height == 0)) || e is Cancelled,
        r matches Ok(res) ==> is_scan_result(
            scan_input(color_ids@, width, height, palette.colors@.len(), key_list@, *config),
            palette.colors@,
            res,
        ),
{
    if width == 0 || height == 0 {
        return Err(Error::Resize("resized image has zero dimensions".to_string()));
    }
    let ghost s = scan_input(color_ids@, width, height, palette.colors@.len(), key_list@, *config);
    let _n_ids = color_ids.len();
    let track_count = palette.colors.len();
    let ghost tc = track_count as int;

    let mut tracks: Vec<Vec<TimedMidiEvent>> = Vec::new();
    let mut counts: Vec<usize> = Vec::new();
    let mut k: usize = 0;
    while k < track_count
        invariant
            k <= track_count,
            tracks@.len() == k,
            counts@.len() == k,
            forall|j: int| 0 <= j < k ==> (#[trigger] tracks@[j])@ == Seq::<TimedMidiEvent>::empty(),
            forall|j: int| 0 <= j < k ==> #[trigger] counts@[j] == 0,
        decreases track_count - k,
    {
        tracks.push(Vec::new());
        counts.push(0);
        k = k + 1;
    }
    proof {
        lemma_sum_zeros(counts@);
    }

    let use_max_length = config.max_note_length > 0;
    let initial: i64 = if use_max_length && config.note_length_mode == NoteLengthMode::FlowWithColor {
        -(config.max_note_length as i64 + 1)
    } else {
        0
    };
    let mut column_colors: Vec<i32> = Vec::new();
    let mut last_on_times: Vec<i64> = Vec::new();
    let mut c0: u32 = 0;
    while c0 < width
        invariant
            c0 <= width,
            column_colors@.len() == c0,
            last_on_times@.len() == c0,
            initial == initial_last_on(s),
            s == scan_input(color_ids@, width, height, palette.colors@.len(), key_list@, *config),
            forall|c: int|
                0 <= c < c0 ==> (#[trigger] column_colors@[c], last_on_times@[c] as int) == column_state(s, c, 0),
            forall|c: int| 0 <= c < c0 ==> #[trigger] last_on_times@[c] == initial,
        decreases width - c0,
    {
        column_colors.push(TRANSPARENT_ID);
        last_on_times.push(initial);
        c0 = c0 + 1;
    }

    let mut total: usize = 0;
    let mut time: u64 = 0;
    let mut row: u32 = height;
    while row > 0
        invariant
            s == scan_input(color_ids@, width, height, palette.colors@.len(), key_list@, *config),
            color_ids@.len() == width * height,
            width * height <= usize::MAX,
            fixed_keys_fit(key_list@, config.key_mode, width as int),
            width > 0,
            track_count == palette.colors@.len(),
            track_count <= i32::MAX,
            use_max_length == (config.max_note_length > 0),
            row <= height,
            time == height - row,
            column_colors@.len() == width,
            last_on_times@.len() == width,
            forall|c: int|
                0 <= c < width ==> (#[trigger] column_colors@[c], last_on_times@[c] as int) == column_state(s, c, time as int),
            forall|c: int| 0 <= c < width ==> #[trigger] last_on_times@[c] >= -(config.max_note_length as int) - 1,
            forall|c: int| 0 <= c < width ==> #[trigger] last_on_times@[c] <= time,
            tracks@.len() == track_count,
            counts@.len() == track_count,
            forall|j: int| 0 <= j < track_count ==> (#[trigger] tracks@[j])@ == scan_events(s, j, time as int),
            forall|j: int| 0 <= j < track_count ==> #[trigger] counts@[j] == count_note_ons(tracks@[j]@),
            total == seq_sum(counts@),
            total <= time * width,
        decreases row,
    {
        if flag_is_set(cancel) {
            return Err(Error::Cancelled);
        }
        row = row - 1;
        let ghost t = time as int;
        let ghost tracks_at_row = tracks@;
        let mut column: u32 = 0;
        while column < width
            invariant
                s == scan_input(color_ids@, width, height, palette.colors@.len(), key_list@, *config),
                color_ids@.len() == width * height,
                width * height <= usize::MAX,
                fixed_keys_fit(key_list@, config.key_mode, width as int),
                track_count == palette.colors@.len(),
                track_count <= i32::MAX,
                use_max_length == (config.max_note_length > 0),
                row < height,
                t == time,
                time == height - 1 - row,
                column <= width,
                column_colors@.len() == width,
                last_on_times@.len() == width,
                forall|c: int|
                    0 <= c < column ==> (#[trigger] column_colors@[c], last_on_times@[c] as int) == column_state(s, c, t + 1),
                forall|c: int|
                    column <= c < width ==> (#[trigger] column_colors@[c], last_on_times@[c] as int) == column_state(s, c, t),
                forall|c: int| 0 <= c < width ==> #[trigger] last_on_times@[c] >= -(config.max_note_length as int) - 1,
                forall|c: int| 0 <= c < width ==> #[trigger] last_on_times@[c] <= time,
                tracks@.len() == track_count,
                counts@.len() == track_count,
                forall|j: int|
                    0 <= j < track_count ==> (#[trigger] tracks@[j])@ == scan_events(s, j, t) + row_events(s, j, t, column as int),
                forall|j: int| 0 <= j < track_count ==> #[trigger] counts@[j] == count_note_ons(tracks@[j]@),
                total == seq_sum(counts@),
                total <= t * width + column,
            decreases width - column,
        {
            proof {
                lemma_steps_bound(t, column as int, width as int, height as int);
                lemma_grid_index(row as int, column as int, width as int, height as int);
                if (config.key_mode == KeyMode::WhiteKeysFixed || config.key_mode == KeyMode::BlackKeysFixed)
                    && key_list@.len() > 0 {
                    assert(key_list@[0] + (column as int) % 256 <= 255);
                }
            }
            scan_column(
                &mut tracks,
                &mut counts,
                &mut total,
                &mut column_colors,
                &mut last_on_times,
                color_ids,
                width,
                height,
                row,
                column,
                time,
                palette,
                key_list,
                config,
            );
            proof {
                assert forall|cc: int| 0 <= cc < column + 1 implies (#[trigger] column_colors@[cc], last_on_times@[cc] as int) == column_state(s, cc, t + 1) by {}
            }
            column = column + 1;
        }
        proof {
            lemma_steps_bound(t, (width - 1) as int, width as int, height as int);
            assert forall|j: int| 0 <= j < track_count implies (#[trigger] tracks@[j])@ == scan_events(s, j, t + 1) by {
                assert(scan_events(s, j, t + 1) == scan_events(s, j, t) + row_events(s, j, t, s.width));
            }
        }
        time = time + 1;
        if row % 32 == 0 {
            progress.row_scanned(row, height);
        }
    }

    proof {
        assert(column_colors@ =~= final_colors(s));
    }
    emit_final_note_offs(&mut tracks, &column_colors, key_list, config, width, time);

    let mut colors: Vec<Color> = Vec::new();
    let mut i: usize = 0;
    while i < palette.colors.len()
        invariant
            i <= palette.colors@.len(),
            colors@ == palette.colors@.take(i as int),
        decreases palette.colors@.len() - i,
    {
        proof {
            assert(palette.colors@.take(i as int + 1) == palette.colors@.take(i as int).push(palette.colors@[i as int]));
        }
        colors.push(palette.colors[i]);
        i = i + 1;
    }
    proof {
        assert(palette.colors@.take(palette.colors@.len() as int) == palette.colors@);
        assert forall|j: int| 0 <= j < track_count implies #[trigger] counts@[j] == count_note_ons(track_of(s, j)) by {
            assert(tracks@[j]@ == track_of(s, j));
            lemma_count_append(scan_events(s, j, s.height), final_events(s, j));
            lemma_closing_no_ons(final_colors(s), s.keys, s.key_mode, s.track_count, s.height, j, s.width);
        }
    }
    Ok(ConversionResult {
        note_count: total,
        note_count_per_color: counts,
        track_events: tracks,
        height,
        palette: colors,
    })
}

// ---------------------------------------------------------------------------
// Planning
// ---------------------------------------------------------------------------

/// Number of columns the image is resized to: one per key of the range, or
/// one per kept key in the "filled" modes.
pub open spec fn effective_width(start: u8, end: u8, mode: KeyMode) -> int {
    if is_filled_mode(mode) {
        key_list_of(start, end, mode).len() as int
    } else {
        end - start + 1
    }
}

/// `height * new_width / width`, rounded half away from zero and saturated
/// to `u32`: the height that keeps the aspect ratio.
pub open spec fn aspect_height(height: int, new_width: int, width: int) -> int {
    let q = (2 * height * new_width + width) / (2 * width);
    if q > u32::MAX {
        u32::MAX as int
    } else {
        q
    }
}

/// Validate the inputs of a conversion and work out the key list and the
/// size the image is resized to.
///
/// Fails with [`Error::Config`] for an empty palette, `start_key > end_key`,
/// a range without usable keys, or a zero-width image whose height would
/// have to follow its aspect ratio.
pub fn plan_conversion(image: &RgbaImage, palette: &Palette, config: &ConverterConfig) -> (r: Result<
    ConversionPlan,
    Error,
>)
    requires
        palette.colors@.len() == 0 || is_filled_mode(config.key_mode) || config.start_key > 0 || config.end_key < 255,
    ensures
        palette.colors@.len() == 0 ==> r matches Err(Error::Config(_)),
        palette.colors@.len() > 0 && config.start_key > config.end_key ==> r matches Err(Error::Config(_)),
        palette.colors@.len() > 0 && config.start_key <= config.end_key && key_list_of(
            config.start_key,
            config.end_key,
            config.key_mode,
        ).len() == 0 ==> r matches Err(Error::Config(_)),
        palette.colors@.len() > 0 && config.start_key <= config.end_key && key_list_of(
            config.start_key,
            config.end_key,
            config.key_mode,
        ).len() > 0 && config.target_height == 0 && image.width == 0 ==> r matches Err(Error::Config(_)),
        r matches Err(e) ==> e is Config,
        palette.colors@.len() > 0 && config.start_key <= config.end_key && key_list_of(
            config.start_key,
            config.end_key,
            config.key_mode,
        ).len() > 0 && (config.target_height > 0 || image.width > 0) ==> r is Ok,
        r matches Ok(plan) ==> {
            &&& palette.colors@.len() > 0
            &&& config.start_key <= config.end_key
            &&& plan.key_list@ == key_list_of(config.start_key, config.end_key, config.key_mode)
            &&& plan.key_list@.len() > 0
            &&& plan.width == effective_width(config.start_key, config.end_key, config.key_mode)
            &&& plan.height == if config.target_height == 0 {
                aspect_height(image.height as int, plan.width as int, image.width as int)
            } else {
                config.target_height as int
            }
            &&& config.target_height == 0 ==> image.width > 0
        },
{
    if palette.colors.len() == 0 {
        return Err(Error::Config("palette must not be empty".to_string()));
    }
    if config.start_key > config.end_key {
        return Err(Error::Config("start_key must not exceed end_key".to_string()));
    }
    let key_list = build_key_list(config.start_key, config.end_key, config.key_mode);
    if key_list.len() == 0 {
        return Err(Error::Config("key range produces no usable keys".to_string()));
    }
    proof {
        key_range(config.start_key, config.end_key).lemma_filter_len(|k: u8| white_key(k as int));
        key_range(config.start_key, config.end_key).lemma_filter_len(|k: u8| !white_key(k as int));
    }
    let effective: u32 = match config.key_mode {
        KeyMode::WhiteKeysFilled | KeyMode::BlackKeysFilled => key_list.len() as u32,
        _ => (config.end_key - config.start_key + 1) as u32,
    };
    let target_height: u32 = if config.target_height == 0 {
        if image.width == 0 {
            return Err(Error::Config("image width is zero, cannot derive height".to_string()));
        }
        proof {
            assert(key_range(config.start_key, config.end_key).len() <= 256);
            assert(effective <= 256);
        }
        proof {
            assert(2 * (image.height as int) * (effective as int) <= 2 * 0xffff_ffff * 256) by (nonlinear_arith)
                requires
                    image.height <= 0xffff_ffff,
                    effective <= 256,
            ;
        }
        let numerator: u64 = 2 * (image.height as u64) * (effective as u64) + image.width as u64;
        let q = numerator / (2 * image.width as u64);
        if q > u32::MAX as u64 {
            u32::MAX
        } else {
            q as u32
        }
    } else {
        config.target_height
    };
    Ok(ConversionPlan { key_list, width: effective, height: target_height })
}

// ---------------------------------------------------------------------------
// Every note that starts also ends
// ---------------------------------------------------------------------------

/// Note-ons minus note-offs in a sequence of events.
pub open spec fn note_balance(events: Seq<TimedMidiEvent>) -> int
    decreases events.len(),
{
    if events.len() == 0 {
        0
    } else {
        note_balance(events.drop_last()) + match events.last().event {
            MidiEvent::NoteOn { .. } => 1int,
            MidiEvent::NoteOff { .. } => -1int,
            _ => 0int,
        }
    }
}

/// Number of note-off events in a sequence.
pub open spec fn count_note_offs(events: Seq<TimedMidiEvent>) -> int
    decreases events.len(),
{
    if events.len() == 0 {
        0
    } else {
        count_note_offs(events.drop_last()) + if events.last().event is NoteOff {
            1int
        } else {
            0int
        }
    }
}

/// Number of columns `0..n` whose ringing color before time `t` is `k`.
pub open spec fn ringing_count(s: ScanInput, k: int, t: int, n: int) -> int
    decreases n,
{
    if n <= 0 {
        0
    } else {
        ringing_count(s, k, t, n - 1) + if column_state(s, n - 1, t).0 == k {
            1int
        } else {
            0int
        }
    }
}

proof fn lemma_balance_concat(a: Seq<TimedMidiEvent>, b: Seq<TimedMidiEvent>)
    ensures
        note_balance(a + b) == note_balance(a) + note_balance(b),
    decreases b.len(),
{
    if b.len() > 0 {
        lemma_balance_concat(a, b.drop_last());
        assert((a + b).drop_last() == a + b.drop_last());
    }
}

proof fn lemma_balance_single(e: TimedMidiEvent)
    ensures
        note_balance(seq![e]) == match e.event {
            MidiEvent::NoteOn { .. } => 1int,
            MidiEvent::NoteOff { .. } => -1int,
            _ => 0int,
        },
{
    reveal_with_fuel(note_balance, 2);
    assert(seq![e].drop_last() =~= Seq::<TimedMidiEvent>::empty());
    assert(seq![e].last() == e);
}

proof fn lemma_balance_counts(events: Seq<TimedMidiEvent>)
    ensures
        note_balance(events) == count_note_ons(events) - count_note_offs(events),
    decreases events.len(),
{
    if events.len() > 0 {
        lemma_balance_counts(events.drop_last());
    }
}

/// A column without a key never rings.
proof fn lemma_keyless_column_silent(s: ScanInput, c: int, t: int)
    requires
        column_key(s, c) is None,
    ensures
        column_state(s, c, t).0 == TRANSPARENT_ID,
    decreases t,
{
    if t > 0 {
        lemma_keyless_column_silent(s, c, t - 1);
    }
}

proof fn lemma_step_balance(s: ScanInput, c: int, t: int, k: int)
    requires
        0 <= k < s.track_count,
        t >= 0,
    ensures
        note_balance(step_events(s, c, t, k)) == (if column_state(s, c, t + 1).0 == k { 1int } else { 0int })
            - (if column_state(s, c, t).0 == k { 1int } else { 0int }),
{
    let (old_color, last_on) = column_state(s, c, t);
    match column_key(s, c) {
        None => {
            lemma_keyless_column_silent(s, c, t);
            lemma_keyless_column_silent(s, c, t + 1);
        },
        Some(key) => {
            let new_color = id_at(s, c, t);
            if new_color != old_color || forces_new_note(s, t, last_on) {
                let off: Seq<TimedMidiEvent> = if is_track(s, old_color) && old_color == k {
                    seq![TimedMidiEvent { tick: t as u64, event: MidiEvent::NoteOff { channel: 0, key, velocity: 0 } }]
                } else {
                    Seq::empty()
                };
                let on: Seq<TimedMidiEvent> = if is_track(s, new_color) && new_color == k {
                    seq![TimedMidiEvent { tick: t as u64, event: MidiEvent::NoteOn { channel: 0, key, velocity: 1 } }]
                } else {
                    Seq::empty()
                };
                lemma_balance_concat(off, on);
                lemma_balance_single(TimedMidiEvent { tick: t as u64, event: MidiEvent::NoteOff { channel: 0, key, velocity: 0 } });
                lemma_balance_single(TimedMidiEvent { tick: t as u64, event: MidiEvent::NoteOn { channel: 0, key, velocity: 1 } });
                assert(note_balance(Seq::<TimedMidiEvent>::empty()) == 0);
            }
        },
    }
}

proof fn lemma_row_balance(s: ScanInput, k: int, t: int, n: int)
    requires
        0 <= k < s.track_count,
        t >= 0,
    ensures
        note_balance(row_events(s, k, t, n)) == ringing_count(s, k, t + 1, n) - ringing_count(s, k, t, n),
    decreases n,
{
    if n > 0 {
        lemma_row_balance(s, k, t, n - 1);
        lemma_balance_concat(row_events(s, k, t, n - 1), step_events(s, n - 1, t, k));
        lemma_step_balance(s, n - 1, t, k);
    }
}

proof fn lemma_nothing_rings_at_start(s: ScanInput, k: int, n: int)
    requires
        0 <= k,
    ensures
        ringing_count(s, k, 0, n) == 0,
    decreases n,
{
    if n > 0 {
        lemma_nothing_rings_at_start(s, k, n - 1);
    }
}

proof fn lemma_scan_balance(s: ScanInput, k: int, t: int)
    requires
        0 <= k < s.track_count,
        t >= 0,
    ensures
        note_balance(scan_events(s, k, t)) == ringing_count(s, k, t, s.width),
    decreases t,
{
    if t == 0 {
        lemma_nothing_rings_at_start(s, k, s.width);
    } else {
        lemma_scan_balance(s, k, t - 1);
        lemma_balance_concat(scan_events(s, k, t - 1), row_events(s, k, t - 1, s.width));
        lemma_row_balance(s, k, t - 1, s.width);
    }
}

proof fn lemma_closing_balance(s: ScanInput, k: int, n: int)
    requires
        0 <= k < s.track_count,
        n <= s.width,
    ensures
        note_balance(closing_events(final_colors(s), s.keys, s.key_mode, s.track_count, s.height, k, n))
            == -ringing_count(s, k, s.height, n),
    decreases n,
{
    if n > 0 {
        let colors = final_colors(s);
        lemma_closing_balance(s, k, n - 1);
        let prefix = closing_events(colors, s.keys, s.key_mode, s.track_count, s.height, k, n - 1);
        let last = closing_off(colors, s.keys, s.key_mode, s.track_count, s.height, n - 1, k);
        lemma_balance_concat(prefix, last);
        if column_key(s, n - 1) is None {
            lemma_keyless_column_silent(s, n - 1, s.height);
        }
        assert(colors[n - 1] == column_state(s, n - 1, s.height).0);
        assert(note_balance(Seq::<TimedMidiEvent>::empty()) == 0);
        match key_for_column((n - 1) % 256, s.keys, s.key_mode) {
            None => {},
            Some(key) => {
                lemma_balance_single(TimedMidiEvent { tick: s.height as u64, event: MidiEvent::NoteOff { channel: 0, key, velocity: 0 } });
            },
        }
    }
}

/// Every note a track starts is also ended: in the events of each track the
/// note-ons and note-offs are equally many.
pub proof fn law_notes_balanced(s: ScanInput, k: int)
    requires
        0 <= k < s.track_count,
        s.width >= 0,
        s.height >= 0,
    ensures
        count_note_ons(track_of(s, k)) == count_note_offs(track_of(s, k)),
{
    lemma_scan_balance(s, k, s.height);
    lemma_closing_balance(s, k, s.width);
    lemma_balance_concat(scan_events(s, k, s.height), final_events(s, k));
    lemma_balance_counts(track_of(s, k));
}

// ---------------------------------------------------------------------------
// Without a length limit, every run of one color is one note
// ---------------------------------------------------------------------------

/// No note-length limit splits notes.
pub open spec fn unlimited_notes(s: ScanInput) -> bool {
    s.max_len == 0 || s.length_mode == NoteLengthMode::Unlimited
}

/// A run of color `k` starts in column `c` at time `t`: the column plays a
/// key, shows `k` at `t`, and did not show `k` just before.
pub open spec fn run_starts_at(s: ScanInput, c: int, k: int, t: int) -> bool {
    &&& column_key(s, c) is Some
    &&& id_at(s, c, t) == k
    &&& (t == 0 || id_at(s, c, t - 1) != k)
}

/// Number of runs of color `k` starting at time `t` in columns `0..n`.
pub open spec fn row_run_starts(s: ScanInput, k: int, t: int, n: int) -> int
    decreases n,
{
    if n <= 0 {
        0
    } else {
        row_run_starts(s, k, t, n - 1) + if run_starts_at(s, n - 1, k, t) {
            1int
        } else {
            0int
        }
    }
}

/// Number of maximal vertical runs of color `k` in the keyed columns that
/// start at times `0..t`.
pub open spec fn run_starts(s: ScanInput, k: int, t: int) -> int
    decreases t,
{
    if t <= 0 {
        0
    } else {
        run_starts(s, k, t - 1) + row_run_starts(s, k, t - 1, s.width)
    }
}

proof fn lemma_single_count(e: TimedMidiEvent)
    ensures
        count_note_ons(seq![e]) == if is_note_on(e) { 1int } else { 0int },
{
    reveal_with_fuel(count_note_ons, 2);
    assert(seq![e].drop_last() =~= Seq::<TimedMidiEvent>::empty());
    assert(seq![e].last() == e);
}

/// Without a length limit a keyed column rings the color it showed last.
proof fn lemma_unlimited_state(s: ScanInput, c: int, t: int)
    requires
        unlimited_notes(s),
        column_key(s, c) is Some,
        t >= 1,
    ensures
        column_state(s, c, t).0 == id_at(s, c, t - 1),
{
}

proof fn lemma_step_ons(s: ScanInput, c: int, t: int, k: int)
    requires
        unlimited_notes(s),
        0 <= k < s.track_count,
        t >= 0,
    ensures
        count_note_ons(step_events(s, c, t, k)) == if run_starts_at(s, c, k, t) { 1int } else { 0int },
{
    let (old_color, last_on) = column_state(s, c, t);
    assert(!forces_new_note(s, t, last_on));
    match column_key(s, c) {
        None => {},
        Some(key) => {
            if t == 0 {
                assert(old_color == TRANSPARENT_ID);
            } else {
                lemma_unlimited_state(s, c, t);
            }
            let new_color = id_at(s, c, t);
            if new_color != old_color {
                let off: Seq<TimedMidiEvent> = if is_track(s, old_color) && old_color == k {
                    seq![TimedMidiEvent { tick: t as u64, event: MidiEvent::NoteOff { channel: 0, key, velocity: 0 } }]
                } else {
                    Seq::empty()
                };
                let on: Seq<TimedMidiEvent> = if is_track(s, new_color) && new_color == k {
                    seq![TimedMidiEvent { tick: t as u64, event: MidiEvent::NoteOn { channel: 0, key, velocity: 1 } }]
                } else {
                    Seq::empty()
                };
                lemma_count_append(off, on);
                if is_track(s, old_color) && old_color == k {
                    lemma_single_count(off[0]);
                    assert(off == seq![off[0]]);
                }
                if is_track(s, new_color) && new_color == k {
                    lemma_single_count(on[0]);
                    assert(on == seq![on[0]]);
                }
            }
        },
    }
}

proof fn lemma_row_ons(s: ScanInput, k: int, t: int, n: int)
    requires
        unlimited_notes(s),
        0 <= k < s.track_count,
        t >= 0,
    ensures
        count_note_ons(row_events(s, k, t, n)) == row_run_starts(s, k, t, n),
    decreases n,
{
    if n > 0 {
        lemma_row_ons(s, k, t, n - 1);
        lemma_step_ons(s, n - 1, t, k);
        lemma_count_append(row_events(s, k, t, n - 1), step_events(s, n - 1, t, k));
    }
}

proof fn lemma_scan_ons(s: ScanInput, k: int, t: int)
    requires
        unlimited_notes(s),
        0 <= k < s.track_count,
    ensures
        count_note_ons(scan_events(s, k, t)) == run_starts(s, k, t),
    decreases t,
{
    if t > 0 {
        lemma_scan_ons(s, k, t - 1);
        lemma_row_ons(s, k, t - 1, s.width);
        lemma_count_append(scan_events(s, k, t - 1), row_events(s, k, t - 1, s.width));
    }
}

/// Without a note-length limit, the notes of a color's track are exactly
/// the maximal vertical runs of that color in the columns that play a key:
/// the track holds one note-on per run.
pub proof fn law_one_note_per_run(s: ScanInput, k: int)
    requires
        unlimited_notes(s),
        0 <= k < s.track_count,
    ensures
        count_note_ons(track_of(s, k)) == run_starts(s, k, s.height),
{
    lemma_scan_ons(s, k, s.height);
    lemma_closing_no_ons(final_colors(s), s.keys, s.key_mode, s.track_count, s.height, k, s.width);
    lemma_count_append(scan_events(s, k, s.height), final_events(s, k));
}

// ---------------------------------------------------------------------------
// The image is played from the bottom row up
// ---------------------------------------------------------------------------

/// The first tick plays the bottom row: in a column that plays a key, the
/// events at tick `0` hold a note-on for track `k` exactly when the pixel
/// of that column in the last row of the image (row `height - 1`) has
/// color id `k`, whatever the note-length mode.
pub proof fn law_first_tick_plays_bottom_row(s: ScanInput, c: int, k: int)
    requires
        0 <= c < s.width,
        s.height >= 1,
        s.ids.len() == s.width * s.height,
        0 <= k < s.track_count,
        column_key(s, c) is Some,
    ensures
        count_note_ons(step_events(s, c, 0, k)) == if s.ids[(s.height - 1) * s.width + c] == k { 1int } else { 0int },
{
    let (old_color, last_on) = column_state(s, c, 0);
    assert(old_color == TRANSPARENT_ID);
    let key = column_key(s, c).unwrap();
    let new_color = id_at(s, c, 0);
    assert(new_color == sanitize_id(s.ids[(s.height - 1) * s.width + c], s.track_count));
    if new_color != old_color || forces_new_note(s, 0, last_on) {
        let off: Seq<TimedMidiEvent> = Seq::empty();
        let on: Seq<TimedMidiEvent> = if is_track(s, new_color) && new_color == k {
            seq![TimedMidiEvent { tick: 0u64, event: MidiEvent::NoteOn { channel: 0, key, velocity: 1 } }]
        } else {
            Seq::empty()
        };
        assert(step_events(s, c, 0, k) == off + on);
        lemma_count_append(off, on);
        if is_track(s, new_color) && new_color == k {
            lemma_single_count(on[0]);
            assert(on == seq![on[0]]);
        }
    }
}

/// Row by row, bottom up: without a note-length limit, in a column that
/// plays a key, tick `t` holds a note-on for track `k` exactly when the
/// pixel of that column in row `height - 1 - t` has color id `k` and the
/// pixel just below it (row `height - t`, already played) does not; at tick
/// `0` there is nothing below.
pub proof fn law_scan_plays_rows_bottom_up(s: ScanInput, c: int, t: int, k: int)
    requires
        unlimited_notes(s),
        0 <= c < s.width,
        0 <= t < s.height,
        s.ids.len() == s.width * s.height,
        0 <= k < s.track_count,
        column_key(s, c) is Some,
    ensures
        count_note_ons(step_events(s, c, t, k)) == if s.ids[(s.height - 1 - t) * s.width + c] == k && (t == 0
            || s.ids[(s.height - t) * s.width + c] != k) {
            1int
        } else {
            0int
        },
{
    lemma_step_ons(s, c, t, k);
    assert(id_at(s, c, t) == sanitize_id(s.ids[(s.height - 1 - t) * s.width + c], s.track_count));
    if t > 0 {
        assert(s.height - 1 - (t - 1) == s.height - t);
        assert(id_at(s, c, t - 1) == sanitize_id(s.ids[(s.height - t) * s.width + c], s.track_count));
    }
}

} // verus!

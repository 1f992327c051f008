//! Pipeline stages and cooperative cancellation.

use std::sync::atomic::AtomicBool;
use std::sync::atomic::Ordering;
use vstd::prelude::*;

verus! {

/// A stage of the conversion pipeline.
#[derive(Clone, Copy, Debug, PartialEq, Eq, Structural)]
pub enum Stage {
    /// Reading and decoding the input image.
    Loading,
    /// Clustering pixels to build the palette.
    Clustering,
    /// Resizing the image to the key range.
    Resizing,
    /// Mapping pixels onto palette entries.
    Quantizing,
    /// Turning color runs into note events.
    GeneratingNotes,
    /// Serializing tracks into the MIDI file.
    WritingMidi,
}

/// Receives the progress of the piano-roll scan.
///
/// The scan runs bottom-up and calls [`RowProgress::row_scanned`] after every
/// row whose index is a multiple of 32 (the top row among them), so a caller
/// can report the fraction `1 - row / height` of the image done.
pub trait RowProgress {
    /// Row `row` of an image `height` rows tall has been scanned.
    fn row_scanned(&self, row: u32, height: u32);
}

/// A progress receiver that ignores every report.
pub struct NoProgress;

impl RowProgress for NoProgress {
    fn row_scanned(&self, row: u32, height: u32) {
    }
}

/// Read a shared cancellation flag. Other threads may set it at any time,
/// so nothing is known of the value read.
pub fn flag_is_set(flag: &AtomicBool) -> bool {
    flag.load(Ordering::Relaxed)
}

/// A thread-safe cancellation flag.
pub struct CancellationToken {
    cancelled: AtomicBool,
}

impl CancellationToken {
    /// Create a fresh token.
    pub fn new() -> CancellationToken {
        CancellationToken { cancelled: AtomicBool::new(false) }
    }

    /// Signal cancellation; idempotent and safe to call from any thread.
    pub fn cancel(&self) {
        self.cancelled.store(true, Ordering::Relaxed);
    }

    /// Whether cancellation has been signalled.
    pub fn is_cancelled(&self) -> bool {
        flag_is_set(&self.cancelled)
    }
}

impl Default for CancellationToken {
    /// A fresh token, as [`CancellationToken::new`] makes it.
    fn default() -> CancellationToken {
        CancellationToken::new()
    }
}

} // verus!

//! The error type shared by the whole crate.

use vstd::prelude::*;

verus! {

#[verifier::external_type_specification]
#[verifier::external_body]
pub struct ExIoError(std::io::Error);

/// All errors that can occur while converting images to MIDI.
#[derive(Debug)]
pub enum Error {
    /// A filesystem operation failed.
    Io(std::io::Error),
    /// The input file could not be decoded as an image.
    ImageDecode(String),
    /// A configuration or palette is invalid.
    Config(String),
    /// Palette generation failed.
    PaletteGeneration(String),
    /// The input or output format is not supported.
    UnsupportedFormat(String),
    /// An external helper command failed.
    ExternalCommand(String),
    /// Resizing failed.
    Resize(String),
    /// MIDI serialization or writing failed.
    Midi(String),
    /// The operation was aborted through the shared cancellation flag.
    Cancelled,
}

} // verus!

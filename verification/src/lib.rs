//! Image-to-MIDI conversion core.
//!
//! An image is read like a piano roll: after resizing, every column plays
//! one MIDI key, every palette color becomes one track, and every vertical
//! run of one color in a column becomes a note. This crate holds the parts
//! of that pipeline that compute on integers: images and their transforms,
//! integer resampling kernels, the integer palette algorithms, color
//! matching in RGB, the piano-roll scan and the layout of the MIDI file.

pub mod cluster;
pub mod color;
pub mod config;
pub mod convert;
pub mod error;
pub mod image;
pub mod match_color;
pub mod midi;
pub mod progress;
pub mod resize;
pub mod utils;

pub use color::{Color, Palette};
pub use config::{ColorIdMethod, ConverterConfig, KeyMode, NoteLengthMode, PaletteSource, ResizeAlgorithm};
pub use convert::{ConversionPlan, ConversionResult};
pub use error::Error;
pub use image::RgbaImage;
pub use midi::events::MidiEvent;
pub use midi::writer::color_event_payload;
pub use midi::TimedMidiEvent;
pub use progress::{CancellationToken, Stage};

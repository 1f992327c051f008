//! Conversion configuration: palette source, key mapping, note lengths,
//! resampling filter and color metric.

use crate::color::Color;
use vstd::prelude::*;

verus! {

/// How image columns are mapped onto MIDI keys.
#[derive(Clone, Copy, Debug, PartialEq, Eq, Structural)]
pub enum KeyMode {
    /// Every key in `start_key..=end_key` is used, chromatically.
    AllKeys,
    /// Only white keys are used; the image width equals the white-key count.
    WhiteKeysFilled,
    /// The image spans the full key range; black-key columns are skipped.
    WhiteKeysClipped,
    /// Keys are addressed by `start_key + column`; black-key hits are dropped.
    WhiteKeysFixed,
    /// Only black keys are used; the image width equals the black-key count.
    BlackKeysFilled,
    /// The image spans the full key range; white-key columns are skipped.
    BlackKeysClipped,
    /// Keys are addressed by `start_key + column`; white-key hits are dropped.
    BlackKeysFixed,
}

/// How the length of generated notes is limited (only when
/// [`ConverterConfig::max_note_length`] is non-zero).
#[derive(Clone, Copy, Debug, PartialEq, Eq, Structural)]
pub enum NoteLengthMode {
    /// Notes ring for the entire vertical run of their color.
    Unlimited,
    /// A note is re-triggered after `max_note_length` rows of one color.
    FlowWithColor,
    /// Notes are split every `max_note_length` rows from the bottom.
    SplitToGrid,
}

/// Interpolation algorithm used when resizing the image to the key range.
#[derive(Clone, Copy, Debug, PartialEq, Eq, Structural)]
pub enum ResizeAlgorithm {
    /// Weighted average over the source area covered by each output pixel.
    AreaResampling,
    /// Bilinear interpolation over the 2x2 neighborhood.
    Bilinear,
    /// Nearest-neighbor sampling.
    NearestNeighbor,
    /// Cubic convolution over the 4x4 neighborhood.
    Bicubic,
    /// Lanczos-3 windowed sinc filter.
    Lanczos,
    /// Gaussian filter (sigma 1, radius 2).
    Gaussian,
    /// Mitchell-Netravali filter (B = C = 1/3).
    Mitchell,
    /// Unweighted box average over the covered source rectangle.
    BoxFilter,
    /// Box average computed from a summed-area table.
    IntegralImage,
    /// The most frequent source color in each covered rectangle wins.
    ModePooling,
    /// Hermite interpolation over the 2x2 neighborhood.
    Hermite,
}

/// Metric used to match a pixel to its nearest palette entry.
#[derive(Clone, Copy, Debug, PartialEq, Eq, Structural)]
pub enum ColorIdMethod {
    /// Euclidean distance in sRGB space.
    Rgb,
    /// Weighted distance in HSV space.
    Hsv,
    /// Euclidean distance in CIE Lab space.
    Lab,
    /// CIEDE2000 delta-E.
    Ciede2000,
    /// Weighted distance in HSL space.
    Hsl,
}

/// Where the color palette comes from.
#[derive(Clone, Debug, PartialEq)]
pub enum PaletteSource {
    /// Use exactly these colors.
    Manual(Vec<Color>),
    /// WPF median cut (served by K-Means++).
    OnlyWpfMedianCut,
    /// K-Means++ initialization only.
    OnlyKMeansPlusPlus,
    /// Lloyd K-Means with shuffled initial centers.
    KMeans,
    /// Lloyd K-Means with K-Means++ initialization.
    KMeansPlusPlus,
    /// The most frequent opaque colors.
    Popularity,
    /// Octree color quantization.
    Octree,
    /// Repeated median split of the box with the largest variance.
    VarianceSplit,
    /// Colors along the first principal component.
    Pca,
    /// Frequency-weighted Max-Min centers plus a few Lloyd steps.
    MaxMin,
    /// Incremental K-Means with a fixed learning rate.
    NativeKMeans,
    /// Mean-shift clustering.
    MeanShift,
    /// DBSCAN density clustering.
    Dbscan,
    /// OPTICS (served by DBSCAN).
    Optics,
    /// Gaussian mixture model.
    Gmm,
    /// Agglomerative single-linkage clustering.
    Hierarchical,
    /// Spectral clustering in Lab space.
    Spectral,
    /// K-Means in CIE Lab space.
    LabKMeans,
    /// K-Means++ palette plus Floyd-Steinberg dithering.
    FloydSteinbergDither,
    /// K-Means++ palette plus ordered Bayer dithering.
    OrderedDither,
    /// A fixed bit-depth palette.
    FixedBitPalette,
}

/// Every tunable of the image to MIDI conversion.
#[derive(Clone, Debug)]
pub struct ConverterConfig {
    /// Number of palette colors (= number of MIDI tracks).
    pub color_count: usize,
    /// Palette source algorithm, or a manual palette.
    pub palette: PaletteSource,
    /// Lowest MIDI key used.
    pub start_key: u8,
    /// Highest MIDI key used.
    pub end_key: u8,
    /// How columns map onto keys.
    pub key_mode: KeyMode,
    /// How note lengths are limited.
    pub note_length_mode: NoteLengthMode,
    /// Maximum note length in rows; `0` disables the limit.
    pub max_note_length: u32,
    /// Resized image height; `0` keeps the aspect ratio.
    pub target_height: u32,
    /// Resampling filter of the resize step.
    pub resize_algorithm: ResizeAlgorithm,
    /// Color metric for pixel to palette matching.
    pub color_id_method: ColorIdMethod,
    /// MIDI ticks per pixel row; `0` counts as `1`.
    pub ticks_per_pixel: u32,
    /// Pulses per quarter note in the MIDI header.
    pub ppq: u16,
    /// Ticks inserted before the first note.
    pub start_offset: u32,
    /// Tempo in beats per minute.
    pub bpm: u16,
    /// Prepend a track-color meta event to every track.
    pub emit_color_events: bool,
    /// Reserved: replace palette colors with random colors.
    pub random_colors: bool,
    /// Seed for `random_colors`.
    pub random_color_seed: u32,
}

impl Default for ConverterConfig {
    /// 16 colors via K-Means++, the 88-key piano range (A0 to C8), all keys,
    /// unlimited note length, area resampling, RGB matching, 96 PPQ, 120 BPM.
    fn default() -> (c: ConverterConfig)
        ensures
            c.color_count == 16,
            c.palette == PaletteSource::KMeansPlusPlus,
            c.start_key == 21,
            c.end_key == 108,
            c.key_mode == KeyMode::AllKeys,
            c.note_length_mode == NoteLengthMode::Unlimited,
            c.max_note_length == 0,
            c.target_height == 0,
            c.resize_algorithm == ResizeAlgorithm::AreaResampling,
            c.color_id_method == ColorIdMethod::Rgb,
            c.ticks_per_pixel == 1,
            c.ppq == 96,
            c.start_offset == 0,
            c.bpm == 120,
            !c.emit_color_events,
            !c.random_colors,
            c.random_color_seed == 0,
    {
        ConverterConfig {
            color_count: 16,
            palette: PaletteSource::KMeansPlusPlus,
            start_key: 21,
            end_key: 108,
            key_mode: KeyMode::AllKeys,
            note_length_mode: NoteLengthMode::Unlimited,
            max_note_length: 0,
            target_height: 0,
            resize_algorithm: ResizeAlgorithm::AreaResampling,
            color_id_method: ColorIdMethod::Rgb,
            ticks_per_pixel: 1,
            ppq: 96,
            start_offset: 0,
            bpm: 120,
            emit_color_events: false,
            random_colors: false,
            random_color_seed: 0,
        }
    }
}

} // verus!

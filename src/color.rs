//! Colors, pixel layouts and the reduced-space index.
use vstd::prelude::*;

verus! {

/// Number of cells in the reduced cube: 5 bits per channel, `32 * 32 * 32`.
pub const HISTOGRAM_SIZE: usize = 32768;

/// Number of levels per reduced channel.
pub const VBOX_LENGTH: usize = 32;

/// An RGB color with 8-bit channels.
#[derive(Clone, Copy, Debug, PartialEq, Eq, Structural)]
pub struct Color {
    pub r: u8,
    pub g: u8,
    pub b: u8,
}

impl Color {
    /// Builds a color from its three channels.
    pub fn new(r: u8, g: u8, b: u8) -> (c: Color)
        ensures
            c == (Color { r, g, b }),
    {
        Color { r, g, b }
    }
}

/// Channel order and count of a raw pixel buffer.
#[derive(Clone, Copy, Debug, PartialEq, Eq, Structural)]
pub enum ColorFormat {
    Rgb,
    Rgba,
    Argb,
    Bgr,
    Bgra,
}

/// Errors of the quantization.
#[derive(Clone, Copy, Debug, PartialEq, Eq, Structural)]
pub enum Error {
    InvalidVBox,
    VBoxCutFailed,
}

impl Error {
    /// A human-readable description of the error.
    pub fn message(&self) -> (s: &'static str)
        ensures
            *self == Error::InvalidVBox ==> s@ == "an invalid VBox"@,
            *self == Error::VBoxCutFailed ==> s@ == "failed to cut a VBox"@,
    {
        match self {
            Error::InvalidVBox => "an invalid VBox",
            Error::VBoxCutFailed => "failed to cut a VBox",
        }
    }
}

/// Bytes per pixel of a format.
pub open spec fn channel_count(f: ColorFormat) -> int {
    match f {
        ColorFormat::Rgb | ColorFormat::Bgr => 3,
        _ => 4,
    }
}

/// Bytes per pixel of a format.
pub fn channel_count_of(f: ColorFormat) -> (n: usize)
    ensures
        n == channel_count(f),
{
    match f {
        ColorFormat::Rgb => 3,
        ColorFormat::Rgba => 4,
        ColorFormat::Argb => 4,
        ColorFormat::Bgr => 3,
        ColorFormat::Bgra => 4,
    }
}

/// The (r, g, b, a) of the pixel that starts at byte `pos`; formats without
/// alpha read as fully opaque.
pub open spec fn parts_at(p: Seq<u8>, f: ColorFormat, pos: int) -> (u8, u8, u8, u8) {
    match f {
        ColorFormat::Rgb => (p[pos], p[pos + 1], p[pos + 2], 255u8),
        ColorFormat::Rgba => (p[pos], p[pos + 1], p[pos + 2], p[pos + 3]),
        ColorFormat::Argb => (p[pos + 1], p[pos + 2], p[pos + 3], p[pos]),
        ColorFormat::Bgr => (p[pos + 2], p[pos + 1], p[pos], 255u8),
        ColorFormat::Bgra => (p[pos + 2], p[pos + 1], p[pos], p[pos + 3]),
    }
}

/// Extracts the r, g, b, a parts of the pixel that starts at byte `pos`.
pub fn color_parts(pixels: &[u8], color_format: ColorFormat, pos: usize) -> (r: (u8, u8, u8, u8))
    requires
        pos + channel_count(color_format) <= pixels@.len(),
    ensures
        r == parts_at(pixels@, color_format, pos as int),
{
    match color_format {
        ColorFormat::Rgb => (pixels[pos], pixels[pos + 1], pixels[pos + 2], 255),
        ColorFormat::Rgba => (pixels[pos], pixels[pos + 1], pixels[pos + 2], pixels[pos + 3]),
        ColorFormat::Argb => (pixels[pos + 1], pixels[pos + 2], pixels[pos + 3], pixels[pos]),
        ColorFormat::Bgr => (pixels[pos + 2], pixels[pos + 1], pixels[pos], 255),
        ColorFormat::Bgra => (pixels[pos + 2], pixels[pos + 1], pixels[pos], pixels[pos + 3]),
    }
}

/// The packed cell of a reduced color: `(r << 10) | (g << 5) | b`.
pub open spec fn color_index(r: int, g: int, b: int) -> int {
    r * 1024 + g * 32 + b
}

/// Reduced-space cell index of a 5-bit color.
pub fn make_color_index_of(red: u8, green: u8, blue: u8) -> (i: usize)
    requires
        red < 32,
        green < 32,
        blue < 32,
    ensures
        i == color_index(red as int, green as int, blue as int),
        i < HISTOGRAM_SIZE,
{
    (red as usize) * 1024 + (green as usize) * 32 + blue as usize
}

/// The index packs the reduced cube one to one: unpacking gives back the
/// three channels, so distinct colors have distinct cells.
pub proof fn lemma_color_index_unpacks(r: int, g: int, b: int)
    requires
        0 <= r < 32,
        0 <= g < 32,
        0 <= b < 32,
    ensures
        0 <= color_index(r, g, b) < 32768,
        color_index(r, g, b) / 1024 == r,
        (color_index(r, g, b) / 32) % 32 == g,
        color_index(r, g, b) % 32 == b,
{
    assert(color_index(r, g, b) / 1024 == r) by (nonlinear_arith)
        requires 0 <= r < 32, 0 <= g < 32, 0 <= b < 32;
    assert((color_index(r, g, b) / 32) % 32 == g) by (nonlinear_arith)
        requires 0 <= r < 32, 0 <= g < 32, 0 <= b < 32;
    assert(color_index(r, g, b) % 32 == b) by (nonlinear_arith)
        requires 0 <= r < 32, 0 <= g < 32, 0 <= b < 32;
}

/// Distinct reduced colors occupy distinct cells.
pub proof fn lemma_color_index_injective(r1: int, g1: int, b1: int, r2: int, g2: int, b2: int)
    requires
        0 <= r1 < 32, 0 <= g1 < 32, 0 <= b1 < 32,
        0 <= r2 < 32, 0 <= g2 < 32, 0 <= b2 < 32,
        color_index(r1, g1, b1) == color_index(r2, g2, b2),
    ensures
        r1 == r2 && g1 == g2 && b1 == b2,
{
    lemma_color_index_unpacks(r1, g1, b1);
    lemma_color_index_unpacks(r2, g2, b2);
}

} // verus!

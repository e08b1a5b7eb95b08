//! Dominant-color palette extraction by median cut over a reduced RGB cube.
//!
//! Pixels are sampled into a histogram over 5-bit channels; the box around
//! them is split repeatedly at population-balanced points, first by
//! population and then by population times volume, and the palette is the
//! mean color of each resulting box.
pub mod color;
pub mod histogram;
pub mod median_cut;
pub mod quantize;
pub mod vbox;

pub use color::{color_parts, make_color_index_of, Color, ColorFormat, Error};
pub use quantize::get_palette;

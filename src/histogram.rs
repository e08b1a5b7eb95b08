//! Sampling of a raw pixel buffer into the reduced-cube histogram.
use vstd::prelude::*;

use crate::color::{
    channel_count, channel_count_of, color_index, color_parts, make_color_index_of, parts_at,
    ColorFormat, HISTOGRAM_SIZE,
};
use crate::vbox::{hist_wf, make_box, VBox};

verus! {

/// Number of whole pixels in the buffer.
pub open spec fn pixel_total(p: Seq<u8>, f: ColorFormat) -> int {
    p.len() as int / channel_count(f)
}

/// A sampled pixel is kept unless it is nearly transparent or nearly white.
pub open spec fn kept_at(p: Seq<u8>, f: ColorFormat, pos: int) -> bool {
    let (r, g, b, a) = parts_at(p, f, pos);
    !(a < 125 || (r > 250 && g > 250 && b > 250))
}

/// Channel `c` (0 red, 1 green, 2 blue) of the pixel at `pos`, reduced to 5 bits.
pub open spec fn reduced_at(p: Seq<u8>, f: ColorFormat, pos: int, c: int) -> int {
    let (r, g, b, a) = parts_at(p, f, pos);
    if c == 0 {
        r as int / 8
    } else if c == 1 {
        g as int / 8
    } else {
        b as int / 8
    }
}

/// Histogram cell of the pixel at `pos`.
pub open spec fn cell_at(p: Seq<u8>, f: ColorFormat, pos: int) -> int {
    color_index(reduced_at(p, f, pos, 0), reduced_at(p, f, pos, 1), reduced_at(p, f, pos, 2))
}

/// Number of kept samples in cell `k` among the pixel indices `i`,
/// `i + stride`, ... below the pixel total.
pub open spec fn hits(p: Seq<u8>, f: ColorFormat, stride: int, k: int, i: int) -> int
    decreases pixel_total(p, f) + stride - i,
{
    if stride <= 0 || i < 0 || i >= pixel_total(p, f) {
        0
    } else {
        let here: int = if kept_at(p, f, i * channel_count(f)) && cell_at(p, f, i * channel_count(f)) == k {
            1
        } else {
            0
        };
        here + hits(p, f, stride, k, i + stride)
    }
}

/// Number of kept samples from pixel index `i` on.
pub open spec fn survivors(p: Seq<u8>, f: ColorFormat, stride: int, i: int) -> int
    decreases pixel_total(p, f) + stride - i,
{
    if stride <= 0 || i < 0 || i >= pixel_total(p, f) {
        0
    } else {
        let here: int = if kept_at(p, f, i * channel_count(f)) {
            1
        } else {
            0
        };
        here + survivors(p, f, stride, i + stride)
    }
}

/// Least reduced value of channel `c` over the kept samples from pixel
/// index `i` on, or 255 when there is none.
pub open spec fn low(p: Seq<u8>, f: ColorFormat, stride: int, c: int, i: int) -> int
    decreases pixel_total(p, f) + stride - i,
{
    if stride <= 0 || i < 0 || i >= pixel_total(p, f) {
        255
    } else {
        let rest = low(p, f, stride, c, i + stride);
        let v = reduced_at(p, f, i * channel_count(f), c);
        if kept_at(p, f, i * channel_count(f)) && v < rest {
            v
        } else {
            rest
        }
    }
}

/// Greatest reduced value of channel `c` over the kept samples from pixel
/// index `i` on, or 0 when there is none.
pub open spec fn high(p: Seq<u8>, f: ColorFormat, stride: int, c: int, i: int) -> int
    decreases pixel_total(p, f) + stride - i,
{
    if stride <= 0 || i < 0 || i >= pixel_total(p, f) {
        0
    } else {
        let rest = high(p, f, stride, c, i + stride);
        let v = reduced_at(p, f, i * channel_count(f), c);
        if kept_at(p, f, i * channel_count(f)) && v > rest {
            v
        } else {
            rest
        }
    }
}

/// With no kept sample, the bounds stay at their starting values.
pub proof fn lemma_no_survivors(p: Seq<u8>, f: ColorFormat, stride: int, c: int, i: int)
    requires
        survivors(p, f, stride, i) == 0,
    ensures
        low(p, f, stride, c, i) == 255,
        high(p, f, stride, c, i) == 0,
    decreases pixel_total(p, f) + stride - i,
{
    if !(stride <= 0 || i < 0 || i >= pixel_total(p, f)) {
        assert(survivors(p, f, stride, i + stride) >= 0) by {
            lemma_survivors_nonneg(p, f, stride, i + stride);
        }
        lemma_no_survivors(p, f, stride, c, i + stride);
    }
}

proof fn lemma_bounds_range(p: Seq<u8>, f: ColorFormat, stride: int, c: int, i: int)
    ensures
        0 <= low(p, f, stride, c, i) <= 255,
        0 <= high(p, f, stride, c, i) <= 31,
    decreases pixel_total(p, f) + stride - i,
{
    if !(stride <= 0 || i < 0 || i >= pixel_total(p, f)) {
        lemma_bounds_range(p, f, stride, c, i + stride);
    }
}

proof fn lemma_hits_nonneg(p: Seq<u8>, f: ColorFormat, stride: int, k: int, i: int)
    ensures
        hits(p, f, stride, k, i) >= 0,
    decreases pixel_total(p, f) + stride - i,
{
    if !(stride <= 0 || i < 0 || i >= pixel_total(p, f)) {
        lemma_hits_nonneg(p, f, stride, k, i + stride);
    }
}

/// A kept sample from pixel index `i` on: its cell is counted, and its
/// reduced channels lie within the bounds of the kept samples.
pub proof fn lemma_survivor_witness(p: Seq<u8>, f: ColorFormat, stride: int, i: int) -> (j: int)
    requires
        survivors(p, f, stride, i) > 0,
    ensures
        0 <= j < pixel_total(p, f),
        kept_at(p, f, j * channel_count(f)),
        hits(p, f, stride, cell_at(p, f, j * channel_count(f)), i) >= 1,
        forall|c: int|
            0 <= c < 3 ==> low(p, f, stride, c, i) <= #[trigger] reduced_at(p, f, j * channel_count(f), c)
                <= high(p, f, stride, c, i),
    decreases pixel_total(p, f) + stride - i,
{
    let cc = channel_count(f);
    if kept_at(p, f, i * cc) {
        lemma_hits_nonneg(p, f, stride, cell_at(p, f, i * cc), i + stride);
        i
    } else {
        let j = lemma_survivor_witness(p, f, stride, i + stride);
        j
    }
}

/// Counts of kept samples are never negative.
pub proof fn lemma_survivors_nonneg(p: Seq<u8>, f: ColorFormat, stride: int, i: int)
    ensures
        survivors(p, f, stride, i) >= 0,
    decreases pixel_total(p, f) + stride - i,
{
    if !(stride <= 0 || i < 0 || i >= pixel_total(p, f)) {
        lemma_survivors_nonneg(p, f, stride, i + stride);
    }
}

/// Samples every `step`-th pixel, skipping nearly transparent and nearly
/// white ones, and returns the tight box around the kept reduced colors
/// together with the histogram of those colors.
pub fn make_histogram_and_vbox(pixels: &[u8], color_format: ColorFormat, step: u8) -> (res: (
    VBox,
    Vec<i32>,
))
    requires
        1 <= step <= 10,
        pixel_total(pixels@, color_format) < i32::MAX,
    ensures
        hist_wf(res.1@),
        forall|k: int|
            0 <= k < HISTOGRAM_SIZE ==> #[trigger] res.1@[k] == hits(pixels@, color_format, step as int, k, 0),
        res.0.wf(res.1@),
        res.0 == make_box(res.1@, res.0.r_min, res.0.r_max, res.0.g_min, res.0.g_max, res.0.b_min, res.0.b_max),
        res.0.r_min == low(pixels@, color_format, step as int, 0, 0),
        res.0.r_max == high(pixels@, color_format, step as int, 0, 0),
        res.0.g_min == low(pixels@, color_format, step as int, 1, 0),
        res.0.g_max == high(pixels@, color_format, step as int, 1, 0),
        res.0.b_min == low(pixels@, color_format, step as int, 2, 0),
        res.0.b_max == high(pixels@, color_format, step as int, 2, 0),
{
    let ghost p = pixels@;
    let ghost f = color_format;
    
    let mut histogram: Vec<i32> = vec![0i32; HISTOGRAM_SIZE];
    let mut r_min: u8 = 255;
    let mut r_max: u8 = 0;
    let mut g_min: u8 = 255;
    let mut g_max: u8 = 0;
    let mut b_min: u8 = 255;
    let mut b_max: u8 = 0;
    let colors_count = channel_count_of(color_format);
    let pixel_count = pixels.len() / colors_count;
    let stride = step as usize;
    let mut i: usize = 0;
    proof {
        lemma_bounds_range(p, f, stride as int, 0, 0);
        lemma_bounds_range(p, f, stride as int, 1, 0);
        lemma_bounds_range(p, f, stride as int, 2, 0);
    }
    while i < pixel_count
        invariant
            p == pixels@,
            f == color_format,
                        1 <= step <= 10,
            pixel_count < i32::MAX,
            p.len() <= usize::MAX,
            colors_count == channel_count(f),
            pixel_count == pixel_total(p, f),
            stride == step,
            i <= pixel_count + 10,
            histogram@.len() == HISTOGRAM_SIZE,
            forall|k: int|
                0 <= k < HISTOGRAM_SIZE ==> 0 <= #[trigger] histogram@[k] <= i,
            forall|k: int|
                0 <= k < HISTOGRAM_SIZE ==> #[trigger] histogram@[k] + hits(p, f, stride as int, k, i as int)
                    == hits(p, f, stride as int, k, 0),
            (if r_min < low(p, f, stride as int, 0, i as int) { r_min as int } else { low(p, f, stride as int, 0, i as int) })
                == low(p, f, stride as int, 0, 0),
            (if g_min < low(p, f, stride as int, 1, i as int) { g_min as int } else { low(p, f, stride as int, 1, i as int) })
                == low(p, f, stride as int, 1, 0),
            (if b_min < low(p, f, stride as int, 2, i as int) { b_min as int } else { low(p, f, stride as int, 2, i as int) })
                == low(p, f, stride as int, 2, 0),
            (if r_max > high(p, f, stride as int, 0, i as int) { r_max as int } else { high(p, f, stride as int, 0, i as int) })
                == high(p, f, stride as int, 0, 0),
            (if g_max > high(p, f, stride as int, 1, i as int) { g_max as int } else { high(p, f, stride as int, 1, i as int) })
                == high(p, f, stride as int, 1, 0),
            (if b_max > high(p, f, stride as int, 2, i as int) { b_max as int } else { high(p, f, stride as int, 2, i as int) })
                == high(p, f, stride as int, 2, 0),
            r_max < 32,
            g_max < 32,
            b_max < 32,
        decreases pixel_count + 10 - i,
    {
        assert(i * colors_count + colors_count <= p.len()) by (nonlinear_arith)
            requires
                i < pixel_count,
                pixel_count == p.len() as int / (colors_count as int),
                colors_count == 3 || colors_count == 4;
        let pos = i * colors_count;
        let (r, g, b, a) = color_parts(pixels, color_format, pos);
        let ghost old_i = i as int;
        i = i + stride;
        if a < 125 || (r > 250 && g > 250 && b > 250) {
            assert forall|k: int| 0 <= k < HISTOGRAM_SIZE implies #[trigger] histogram@[k] + hits(p, f, stride as int, k, i as int)
                == hits(p, f, stride as int, k, 0) by {
                assert(hits(p, f, stride as int, k, old_i) == hits(p, f, stride as int, k, i as int));
            }
            continue;
        }
        let shifted_r = r / 8;
        let shifted_g = g / 8;
        let shifted_b = b / 8;
        if shifted_r < r_min {
            r_min = shifted_r;
        }
        if shifted_r > r_max {
            r_max = shifted_r;
        }
        if shifted_g < g_min {
            g_min = shifted_g;
        }
        if shifted_g > g_max {
            g_max = shifted_g;
        }
        if shifted_b < b_min {
            b_min = shifted_b;
        }
        if shifted_b > b_max {
            b_max = shifted_b;
        }
        let index = make_color_index_of(shifted_r, shifted_g, shifted_b);
        let ghost before = histogram@;
        let c = histogram[index];
        histogram.set(index, c + 1);
        assert forall|k: int| 0 <= k < HISTOGRAM_SIZE implies #[trigger] histogram@[k] + hits(p, f, stride as int, k, i as int)
            == hits(p, f, stride as int, k, 0) by {
            assert(hits(p, f, stride as int, k, old_i) == (if k == index { 1int } else { 0 }) + hits(p, f, stride as int, k, i as int));
            assert(before[k] + hits(p, f, stride as int, k, old_i) == hits(p, f, stride as int, k, 0));
        }
    }
    assert forall|k: int| 0 <= k < HISTOGRAM_SIZE implies #[trigger] histogram@[k] == hits(p, f, stride as int, k, 0) by {
        assert(hits(p, f, stride as int, k, i as int) == 0);
    }
    let vbox = VBox::new(r_min, r_max, g_min, g_max, b_min, b_max, &histogram);
    (vbox, histogram)
}

} // verus!

//! Boxes of the reduced color cube and the histogram sums over them.
use vstd::prelude::*;

use crate::color::{color_index, make_color_index_of, Color, HISTOGRAM_SIZE};

verus! {

/// What one histogram cell contributes to a box sum: its population, or its
/// population weighted by a channel's 8-bit cell centre (`8 * c + 4`).
pub enum Weight {
    Count,
    Red,
    Green,
    Blue,
}

/// A histogram: one non-negative counter per cell of the reduced cube.
pub open spec fn hist_wf(h: Seq<i32>) -> bool {
    &&& h.len() == HISTOGRAM_SIZE
    &&& forall|i: int| 0 <= i < h.len() ==> h[i] >= 0
}

/// The contribution of cell `(r, g, b)` under weight `w`.
pub open spec fn cell(h: Seq<i32>, w: Weight, r: int, g: int, b: int) -> int {
    let n = h[color_index(r, g, b)] as int;
    match w {
        Weight::Count => n,
        Weight::Red => n * (8 * r + 4),
        Weight::Green => n * (8 * g + 4),
        Weight::Blue => n * (8 * b + 4),
    }
}

/// Sum over the cells `(r, g, b)` with `b` in `[blo, bhi)`.
pub open spec fn sum1(h: Seq<i32>, w: Weight, r: int, g: int, blo: int, bhi: int) -> int
    decreases bhi - blo,
{
    if bhi <= blo {
        0
    } else {
        sum1(h, w, r, g, blo, bhi - 1) + cell(h, w, r, g, bhi - 1)
    }
}

/// Sum over the cells with `g` in `[glo, ghi)` and `b` in `[blo, bhi)`.
pub open spec fn sum2(h: Seq<i32>, w: Weight, r: int, glo: int, ghi: int, blo: int, bhi: int) -> int
    decreases ghi - glo,
{
    if ghi <= glo {
        0
    } else {
        sum2(h, w, r, glo, ghi - 1, blo, bhi) + sum1(h, w, r, ghi - 1, blo, bhi)
    }
}

/// Sum over the cells of the half-open box `[rlo, rhi) x [glo, ghi) x [blo, bhi)`.
pub open spec fn sum3(
    h: Seq<i32>,
    w: Weight,
    rlo: int,
    rhi: int,
    glo: int,
    ghi: int,
    blo: int,
    bhi: int,
) -> int
    decreases rhi - rlo,
{
    if rhi <= rlo {
        0
    } else {
        sum3(h, w, rlo, rhi - 1, glo, ghi, blo, bhi) + sum2(h, w, rhi - 1, glo, ghi, blo, bhi)
    }
}

/// Bounds of one cell's contribution.
proof fn lemma_cell_bounds(h: Seq<i32>, r: int, g: int, b: int)
    requires
        hist_wf(h),
        0 <= r < 32,
        0 <= g < 32,
        0 <= b < 32,
    ensures
        0 <= cell(h, Weight::Count, r, g, b) <= 2147483647,
        0 <= cell(h, Weight::Red, r, g, b) <= 252 * cell(h, Weight::Count, r, g, b),
        0 <= cell(h, Weight::Green, r, g, b) <= 252 * cell(h, Weight::Count, r, g, b),
        0 <= cell(h, Weight::Blue, r, g, b) <= 252 * cell(h, Weight::Count, r, g, b),
{
    crate::color::lemma_color_index_unpacks(r, g, b);
    let n = h[color_index(r, g, b)] as int;
    assert(0 <= n * (8 * r + 4) <= 252 * n) by (nonlinear_arith)
        requires 0 <= n, 0 <= r < 32;
    assert(0 <= n * (8 * g + 4) <= 252 * n) by (nonlinear_arith)
        requires 0 <= n, 0 <= g < 32;
    assert(0 <= n * (8 * b + 4) <= 252 * n) by (nonlinear_arith)
        requires 0 <= n, 0 <= b < 32;
}

/// A box that is empty along any axis sums to zero.
proof fn lemma_sum2_empty(h: Seq<i32>, w: Weight, r: int, glo: int, ghi: int, blo: int, bhi: int)
    requires
        bhi <= blo,
    ensures
        sum2(h, w, r, glo, ghi, blo, bhi) == 0,
    decreases ghi - glo,
{
    if ghi > glo {
        lemma_sum2_empty(h, w, r, glo, ghi - 1, blo, bhi);
    }
}

/// A box that is empty along any axis sums to zero.
pub proof fn lemma_sum3_empty(
    h: Seq<i32>,
    w: Weight,
    rlo: int,
    rhi: int,
    glo: int,
    ghi: int,
    blo: int,
    bhi: int,
)
    requires
        rhi <= rlo || ghi <= glo || bhi <= blo,
    ensures
        sum3(h, w, rlo, rhi, glo, ghi, blo, bhi) == 0,
    decreases rhi - rlo,
{
    if rhi > rlo {
        lemma_sum3_empty(h, w, rlo, rhi - 1, glo, ghi, blo, bhi);
        if bhi <= blo {
            lemma_sum2_empty(h, w, rhi - 1, glo, ghi, blo, bhi);
        }
    }
}

proof fn lemma_sum1_split(h: Seq<i32>, w: Weight, r: int, g: int, lo: int, m: int, hi: int)
    requires
        lo <= m <= hi,
    ensures
        sum1(h, w, r, g, lo, hi) == sum1(h, w, r, g, lo, m) + sum1(h, w, r, g, m, hi),
    decreases hi - m,
{
    if hi > m {
        lemma_sum1_split(h, w, r, g, lo, m, hi - 1);
    }
}

proof fn lemma_sum2_split_g(h: Seq<i32>, w: Weight, r: int, lo: int, m: int, hi: int, blo: int, bhi: int)
    requires
        lo <= m <= hi,
    ensures
        sum2(h, w, r, lo, hi, blo, bhi) == sum2(h, w, r, lo, m, blo, bhi) + sum2(h, w, r, m, hi, blo, bhi),
    decreases hi - m,
{
    if hi > m {
        lemma_sum2_split_g(h, w, r, lo, m, hi - 1, blo, bhi);
    }
}

proof fn lemma_sum2_split_b(h: Seq<i32>, w: Weight, r: int, glo: int, ghi: int, lo: int, m: int, hi: int)
    requires
        lo <= m <= hi,
    ensures
        sum2(h, w, r, glo, ghi, lo, hi) == sum2(h, w, r, glo, ghi, lo, m) + sum2(h, w, r, glo, ghi, m, hi),
    decreases ghi - glo,
{
    if ghi > glo {
        lemma_sum2_split_b(h, w, r, glo, ghi - 1, lo, m, hi);
        lemma_sum1_split(h, w, r, ghi - 1, lo, m, hi);
    }
}

/// Cutting a box along the red axis at `m` splits its sum in two.
pub proof fn lemma_sum3_split_r(
    h: Seq<i32>,
    w: Weight,
    lo: int,
    m: int,
    hi: int,
    glo: int,
    ghi: int,
    blo: int,
    bhi: int,
)
    requires
        lo <= m <= hi,
    ensures
        sum3(h, w, lo, hi, glo, ghi, blo, bhi) == sum3(h, w, lo, m, glo, ghi, blo, bhi) + sum3(
            h,
            w,
            m,
            hi,
            glo,
            ghi,
            blo,
            bhi,
        ),
    decreases hi - m,
{
    if hi > m {
        lemma_sum3_split_r(h, w, lo, m, hi - 1, glo, ghi, blo, bhi);
    }
}

/// Cutting a box along the green axis at `m` splits its sum in two.
pub proof fn lemma_sum3_split_g(
    h: Seq<i32>,
    w: Weight,
    rlo: int,
    rhi: int,
    lo: int,
    m: int,
    hi: int,
    blo: int,
    bhi: int,
)
    requires
        lo <= m <= hi,
    ensures
        sum3(h, w, rlo, rhi, lo, hi, blo, bhi) == sum3(h, w, rlo, rhi, lo, m, blo, bhi) + sum3(
            h,
            w,
            rlo,
            rhi,
            m,
            hi,
            blo,
            bhi,
        ),
    decreases rhi - rlo,
{
    if rhi > rlo {
        lemma_sum3_split_g(h, w, rlo, rhi - 1, lo, m, hi, blo, bhi);
        lemma_sum2_split_g(h, w, rhi - 1, lo, m, hi, blo, bhi);
    }
}

/// Cutting a box along the blue axis at `m` splits its sum in two.
pub proof fn lemma_sum3_split_b(
    h: Seq<i32>,
    w: Weight,
    rlo: int,
    rhi: int,
    glo: int,
    ghi: int,
    lo: int,
    m: int,
    hi: int,
)
    requires
        lo <= m <= hi,
    ensures
        sum3(h, w, rlo, rhi, glo, ghi, lo, hi) == sum3(h, w, rlo, rhi, glo, ghi, lo, m) + sum3(
            h,
            w,
            rlo,
            rhi,
            glo,
            ghi,
            m,
            hi,
        ),
    decreases rhi - rlo,
{
    if rhi > rlo {
        lemma_sum3_split_b(h, w, rlo, rhi - 1, glo, ghi, lo, m, hi);
        lemma_sum2_split_b(h, w, rhi - 1, glo, ghi, lo, m, hi);
    }
}

proof fn lemma_sum1_nonneg(h: Seq<i32>, r: int, g: int, blo: int, bhi: int)
    requires
        hist_wf(h),
        0 <= r < 32,
        0 <= g < 32,
        0 <= blo,
        bhi <= 32,
    ensures
        sum1(h, Weight::Count, r, g, blo, bhi) >= 0,
    decreases bhi - blo,
{
    if bhi > blo {
        lemma_sum1_nonneg(h, r, g, blo, bhi - 1);
        lemma_cell_bounds(h, r, g, bhi - 1);
    }
}

proof fn lemma_sum2_nonneg(h: Seq<i32>, r: int, glo: int, ghi: int, blo: int, bhi: int)
    requires
        hist_wf(h),
        0 <= r < 32,
        0 <= glo,
        ghi <= 32,
        0 <= blo,
        bhi <= 32,
    ensures
        sum2(h, Weight::Count, r, glo, ghi, blo, bhi) >= 0,
    decreases ghi - glo,
{
    if ghi > glo {
        lemma_sum2_nonneg(h, r, glo, ghi - 1, blo, bhi);
        lemma_sum1_nonneg(h, r, ghi - 1, blo, bhi);
    }
}

/// Populations are never negative.
pub proof fn lemma_sum3_nonneg(h: Seq<i32>, rlo: int, rhi: int, glo: int, ghi: int, blo: int, bhi: int)
    requires
        hist_wf(h),
        0 <= rlo,
        rhi <= 32,
        0 <= glo,
        ghi <= 32,
        0 <= blo,
        bhi <= 32,
    ensures
        sum3(h, Weight::Count, rlo, rhi, glo, ghi, blo, bhi) >= 0,
    decreases rhi - rlo,
{
    if rhi > rlo {
        lemma_sum3_nonneg(h, rlo, rhi - 1, glo, ghi, blo, bhi);
        lemma_sum2_nonneg(h, rhi - 1, glo, ghi, blo, bhi);
    }
}

proof fn lemma_sum1_ge_cell(h: Seq<i32>, r: int, g: int, b: int, blo: int, bhi: int)
    requires
        hist_wf(h),
        0 <= r < 32,
        0 <= g < 32,
        0 <= blo <= b < bhi <= 32,
    ensures
        sum1(h, Weight::Count, r, g, blo, bhi) >= cell(h, Weight::Count, r, g, b),
    decreases bhi - blo,
{
    if b < bhi - 1 {
        lemma_sum1_ge_cell(h, r, g, b, blo, bhi - 1);
        lemma_cell_bounds(h, r, g, bhi - 1);
    } else {
        lemma_sum1_nonneg(h, r, g, blo, bhi - 1);
    }
}

proof fn lemma_sum2_ge_cell(h: Seq<i32>, r: int, g: int, b: int, glo: int, ghi: int, blo: int, bhi: int)
    requires
        hist_wf(h),
        0 <= r < 32,
        0 <= glo <= g < ghi <= 32,
        0 <= blo <= b < bhi <= 32,
    ensures
        sum2(h, Weight::Count, r, glo, ghi, blo, bhi) >= cell(h, Weight::Count, r, g, b),
    decreases ghi - glo,
{
    if g < ghi - 1 {
        lemma_sum2_ge_cell(h, r, g, b, glo, ghi - 1, blo, bhi);
        lemma_sum1_nonneg(h, r, ghi - 1, blo, bhi);
    } else {
        lemma_sum2_nonneg(h, r, glo, ghi - 1, blo, bhi);
        lemma_sum1_ge_cell(h, r, g, b, blo, bhi);
    }
}

/// A box's population is at least the count of any cell inside it.
pub proof fn lemma_sum3_ge_cell(
    h: Seq<i32>,
    r: int,
    g: int,
    b: int,
    rlo: int,
    rhi: int,
    glo: int,
    ghi: int,
    blo: int,
    bhi: int,
)
    requires
        hist_wf(h),
        0 <= rlo <= r < rhi <= 32,
        0 <= glo <= g < ghi <= 32,
        0 <= blo <= b < bhi <= 32,
    ensures
        sum3(h, Weight::Count, rlo, rhi, glo, ghi, blo, bhi) >= cell(h, Weight::Count, r, g, b),
    decreases rhi - rlo,
{
    if r < rhi - 1 {
        lemma_sum3_ge_cell(h, r, g, b, rlo, rhi - 1, glo, ghi, blo, bhi);
        lemma_sum2_nonneg(h, rhi - 1, glo, ghi, blo, bhi);
    } else {
        lemma_sum3_nonneg(h, rlo, rhi - 1, glo, ghi, blo, bhi);
        lemma_sum2_ge_cell(h, r, g, b, glo, ghi, blo, bhi);
    }
}

/// Population and the three channel-weighted sums of the inclusive box
/// `[r_min, r_max] x [g_min, g_max] x [b_min, b_max]`.
pub(crate) fn box_sums(h: &Vec<i32>, r_min: u8, r_max: u8, g_min: u8, g_max: u8, b_min: u8, b_max: u8) -> (s: (
    i64,
    i64,
    i64,
    i64,
))
    requires
        hist_wf(h@),
        r_max < 32,
        g_max < 32,
        b_max < 32,
    ensures
        s.0 == sum3(h@, Weight::Count, r_min as int, r_max + 1, g_min as int, g_max + 1, b_min as int, b_max + 1),
        s.1 == sum3(h@, Weight::Red, r_min as int, r_max + 1, g_min as int, g_max + 1, b_min as int, b_max + 1),
        s.2 == sum3(h@, Weight::Green, r_min as int, r_max + 1, g_min as int, g_max + 1, b_min as int, b_max + 1),
        s.3 == sum3(h@, Weight::Blue, r_min as int, r_max + 1, g_min as int, g_max + 1, b_min as int, b_max + 1),
        0 <= s.0 <= 70368744144896,
        0 <= s.1 <= 252 * s.0,
        0 <= s.2 <= 252 * s.0,
        0 <= s.3 <= 252 * s.0,
{
    let ghost hs = h@;
    if r_min > r_max || g_min > g_max || b_min > b_max {
        proof {
            lemma_sum3_empty(hs, Weight::Count, r_min as int, r_max + 1, g_min as int, g_max + 1, b_min as int, b_max + 1);
            lemma_sum3_empty(hs, Weight::Red, r_min as int, r_max + 1, g_min as int, g_max + 1, b_min as int, b_max + 1);
            lemma_sum3_empty(hs, Weight::Green, r_min as int, r_max + 1, g_min as int, g_max + 1, b_min as int, b_max + 1);
            lemma_sum3_empty(hs, Weight::Blue, r_min as int, r_max + 1, g_min as int, g_max + 1, b_min as int, b_max + 1);
        }
        return (0, 0, 0, 0);
    }
    let mut s0: i64 = 0;
    let mut s1: i64 = 0;
    let mut s2: i64 = 0;
    let mut s3: i64 = 0;
    let mut i: u8 = r_min;
    while i <= r_max
        invariant
            hist_wf(hs),
            h@ == hs,
            r_min <= i <= r_max + 1,
            r_max < 32, g_min <= g_max < 32, b_min <= b_max < 32,
            s0 == sum3(hs, Weight::Count, r_min as int, i as int, g_min as int, g_max + 1, b_min as int, b_max + 1),
            s1 == sum3(hs, Weight::Red, r_min as int, i as int, g_min as int, g_max + 1, b_min as int, b_max + 1),
            s2 == sum3(hs, Weight::Green, r_min as int, i as int, g_min as int, g_max + 1, b_min as int, b_max + 1),
            s3 == sum3(hs, Weight::Blue, r_min as int, i as int, g_min as int, g_max + 1, b_min as int, b_max + 1),
            0 <= s0 <= (i - r_min) * 2199023254528,
            0 <= s1 <= 252 * s0,
            0 <= s2 <= 252 * s0,
            0 <= s3 <= 252 * s0,
        decreases r_max + 1 - i,
    {
        let mut t0: i64 = 0;
        let mut t1: i64 = 0;
        let mut t2: i64 = 0;
        let mut t3: i64 = 0;
        let mut j: u8 = g_min;
        while j <= g_max
            invariant
                hist_wf(hs),
                h@ == hs,
                r_min <= i <= r_max < 32,
                g_min <= j <= g_max + 1,
                g_max < 32, b_min <= b_max < 32,
                t0 == sum2(hs, Weight::Count, i as int, g_min as int, j as int, b_min as int, b_max + 1),
                t1 == sum2(hs, Weight::Red, i as int, g_min as int, j as int, b_min as int, b_max + 1),
                t2 == sum2(hs, Weight::Green, i as int, g_min as int, j as int, b_min as int, b_max + 1),
                t3 == sum2(hs, Weight::Blue, i as int, g_min as int, j as int, b_min as int, b_max + 1),
                0 <= t0 <= (j - g_min) * 68719476704,
                0 <= t1 <= 252 * t0,
                0 <= t2 <= 252 * t0,
                0 <= t3 <= 252 * t0,
            decreases g_max + 1 - j,
        {
            let mut u0: i64 = 0;
            let mut u1: i64 = 0;
            let mut u2: i64 = 0;
            let mut u3: i64 = 0;
            let mut k: u8 = b_min;
            while k <= b_max
                invariant
                    hist_wf(hs),
                    h@ == hs,
                    r_min <= i <= r_max < 32,
                    g_min <= j <= g_max < 32,
                    b_min <= k <= b_max + 1,
                    b_max < 32,
                    u0 == sum1(hs, Weight::Count, i as int, j as int, b_min as int, k as int),
                    u1 == sum1(hs, Weight::Red, i as int, j as int, b_min as int, k as int),
                    u2 == sum1(hs, Weight::Green, i as int, j as int, b_min as int, k as int),
                    u3 == sum1(hs, Weight::Blue, i as int, j as int, b_min as int, k as int),
                    0 <= u0 <= (k - b_min) * 2147483647,
                    0 <= u1 <= 252 * u0,
                    0 <= u2 <= 252 * u0,
                    0 <= u3 <= 252 * u0,
                decreases b_max + 1 - k,
            {
                let index = make_color_index_of(i, j, k);
                proof {
                    lemma_cell_bounds(hs, i as int, j as int, k as int);
                }
                let n = h[index] as i64;
                u0 = u0 + n;
                u1 = u1 + n * (8 * i as i64 + 4);
                u2 = u2 + n * (8 * j as i64 + 4);
                u3 = u3 + n * (8 * k as i64 + 4);
                k = k + 1;
            }
            t0 = t0 + u0;
            t1 = t1 + u1;
            t2 = t2 + u2;
            t3 = t3 + u3;
            j = j + 1;
        }
        s0 = s0 + t0;
        s1 = s1 + t1;
        s2 = s2 + t2;
        s3 = s3 + t3;
        i = i + 1;
    }
    (s0, s1, s2, s3)
}

/// An axis of the color cube.
#[derive(Clone, Copy, Debug, PartialEq, Eq, Structural)]
pub enum ColorChannel {
    Red,
    Green,
    Blue,
}

/// 8-bit value of the centre of the reduced range `[lo, hi]`, capped at 255.
pub open spec fn midpoint(lo: u8, hi: u8) -> u8 {
    let m = 8 * (lo + hi + 1) / 2;
    if m > 255 {
        255u8
    } else {
        m as u8
    }
}

/// The box with the given bounds and the measures of `h`.
pub open spec fn make_box(h: Seq<i32>, r_min: u8, r_max: u8, g_min: u8, g_max: u8, b_min: u8, b_max: u8) -> VBox {
    let v = VBox { r_min, r_max, g_min, g_max, b_min, b_max, average: Color { r: 0, g: 0, b: 0 }, volume: 0, count: 0 };
    VBox { average: v.spec_average(h), volume: v.spec_volume() as i32, count: v.population(h) as i64, ..v }
}

/// A box of the reduced cube with inclusive bounds per channel, and the
/// measures cached for it: mean color, number of cells, population.
#[derive(Clone, Copy, Debug, PartialEq, Eq, Structural)]
pub struct VBox {
    pub r_min: u8,
    pub r_max: u8,
    pub g_min: u8,
    pub g_max: u8,
    pub b_min: u8,
    pub b_max: u8,
    pub average: Color,
    pub volume: i32,
    pub count: i64,
}

impl VBox {
    /// Sum of weight `w` over the cells of the box.
    pub open spec fn weighted(self, h: Seq<i32>, w: Weight) -> int {
        sum3(
            h,
            w,
            self.r_min as int,
            self.r_max + 1,
            self.g_min as int,
            self.g_max + 1,
            self.b_min as int,
            self.b_max + 1,
        )
    }

    /// Number of sampled pixels whose reduced color lies in the box.
    pub open spec fn population(self, h: Seq<i32>) -> int {
        self.weighted(h, Weight::Count)
    }

    /// Product of the three inclusive extents.
    pub open spec fn spec_volume(self) -> int {
        (self.r_max - self.r_min + 1) * (self.g_max - self.g_min + 1) * (self.b_max - self.b_min + 1)
    }

    /// Population-weighted mean of the cell centres, or the centre of the
    /// bounds when the box is empty.
    pub open spec fn spec_average(self, h: Seq<i32>) -> Color {
        let n = self.population(h);
        if n > 0 {
            Color {
                r: (self.weighted(h, Weight::Red) / n) as u8,
                g: (self.weighted(h, Weight::Green) / n) as u8,
                b: (self.weighted(h, Weight::Blue) / n) as u8,
            }
        } else {
            Color {
                r: midpoint(self.r_min, self.r_max),
                g: midpoint(self.g_min, self.g_max),
                b: midpoint(self.b_min, self.b_max),
            }
        }
    }

    /// The upper bounds lie in the reduced cube.
    pub open spec fn in_cube(self) -> bool {
        self.r_max < 32 && self.g_max < 32 && self.b_max < 32
    }

    /// The bounds are in the cube and the cached measures are those of `h`.
    pub open spec fn wf(self, h: Seq<i32>) -> bool {
        &&& self.in_cube()
        &&& self.count == self.population(h)
        &&& 0 <= self.count <= 70368744144896
        &&& self.volume == self.spec_volume()
        &&& self.average == self.spec_average(h)
    }

    /// Every bound is ordered, so the box holds at least one cell.
    pub open spec fn non_empty(self) -> bool {
        self.r_min <= self.r_max && self.g_min <= self.g_max && self.b_min <= self.b_max
    }

    /// The axis with the largest extent; ties go to red, then green.
    pub open spec fn widest(self) -> ColorChannel {
        let rw = self.r_max - self.r_min;
        let gw = self.g_max - self.g_min;
        let bw = self.b_max - self.b_min;
        if rw >= gw && rw >= bw {
            ColorChannel::Red
        } else if gw >= bw {
            ColorChannel::Green
        } else {
            ColorChannel::Blue
        }
    }

    /// Builds the box with the given bounds and computes its measures from
    /// the histogram.
    pub fn new(
        r_min: u8,
        r_max: u8,
        g_min: u8,
        g_max: u8,
        b_min: u8,
        b_max: u8,
        histogram: &Vec<i32>,
    ) -> (v: VBox)
        requires
            hist_wf(histogram@),
            r_max < 32,
            g_max < 32,
            b_max < 32,
        ensures
            v.wf(histogram@),
            v == make_box(histogram@, r_min, r_max, g_min, g_max, b_min, b_max),
            v.r_min == r_min && v.r_max == r_max,
            v.g_min == g_min && v.g_max == g_max,
            v.b_min == b_min && v.b_max == b_max,
    {
        let mut v = VBox {
            r_min,
            r_max,
            g_min,
            g_max,
            b_min,
            b_max,
            average: Color { r: 0, g: 0, b: 0 },
            volume: 0,
            count: 0,
        };
        v.average = v.calc_average(histogram);
        v.count = v.calc_count(histogram);
        v.volume = v.calc_volume();
        v
    }

    /// Number of cells of the box, counting empty ones.
    pub fn calc_volume(&self) -> (r: i32)
        requires
            self.in_cube(),
        ensures
            r == self.spec_volume(),
    {
        let a = self.r_max as i32 - self.r_min as i32 + 1;
        let b = self.g_max as i32 - self.g_min as i32 + 1;
        let c = self.b_max as i32 - self.b_min as i32 + 1;
        assert(-8128 <= a * b <= 64516) by (nonlinear_arith)
            requires -254 <= a <= 32, -254 <= b <= 32;
        let ab = a * b;
        assert(-16387064 <= ab * c <= 16387064) by (nonlinear_arith)
            requires -8128 <= ab <= 64516, -254 <= c <= 32;
        ab * c
    }

    /// Total population of the box.
    pub fn calc_count(&self, histogram: &Vec<i32>) -> (r: i64)
        requires
            hist_wf(histogram@),
            self.in_cube(),
        ensures
            r == self.population(histogram@),
            0 <= r <= 70368744144896,
    {
        let s = box_sums(histogram, self.r_min, self.r_max, self.g_min, self.g_max, self.b_min, self.b_max);
        s.0
    }

    /// Population-weighted mean color of the box, or the centre of its bounds
    /// when it holds no pixel.
    pub fn calc_average(&self, histogram: &Vec<i32>) -> (c: Color)
        requires
            hist_wf(histogram@),
            self.in_cube(),
        ensures
            c == self.spec_average(histogram@),
    {
        let s = box_sums(histogram, self.r_min, self.r_max, self.g_min, self.g_max, self.b_min, self.b_max);
        let (n, rs, gs, bs) = s;
        if n > 0 {
            assert(rs / n <= 252) by (nonlinear_arith)
                requires 0 <= rs <= 252 * n, n > 0;
            assert(gs / n <= 252) by (nonlinear_arith)
                requires 0 <= gs <= 252 * n, n > 0;
            assert(bs / n <= 252) by (nonlinear_arith)
                requires 0 <= bs <= 252 * n, n > 0;
            Color { r: (rs / n) as u8, g: (gs / n) as u8, b: (bs / n) as u8 }
        } else {
            Color {
                r: centre(self.r_min, self.r_max),
                g: centre(self.g_min, self.g_max),
                b: centre(self.b_min, self.b_max),
            }
        }
    }

    /// The axis with the largest extent; ties go to red, then green.
    pub fn widest_color_channel(&self) -> (a: ColorChannel)
        requires
            self.non_empty(),
        ensures
            a == self.widest(),
    {
        let r_width = self.r_max - self.r_min;
        let g_width = self.g_max - self.g_min;
        let b_width = self.b_max - self.b_min;
        if r_width >= g_width && r_width >= b_width {
            ColorChannel::Red
        } else if g_width >= b_width {
            ColorChannel::Green
        } else {
            ColorChannel::Blue
        }
    }
}

/// 8-bit value of the centre of the reduced range `[lo, hi]`, capped at 255.
fn centre(lo: u8, hi: u8) -> (m: u8)
    ensures
        m == midpoint(lo, hi),
{
    let m: i32 = 8 * (lo as i32 + hi as i32 + 1) / 2;
    if m > 255 {
        255
    } else {
        m as u8
    }
}

} // verus!

//! Splitting a box in two at a population-balanced point of its widest axis.
use vstd::prelude::*;

use crate::color::{Error, VBOX_LENGTH};
use crate::vbox::{
    box_sums, make_box, hist_wf, lemma_sum3_empty, lemma_sum3_nonneg, lemma_sum3_split_b,
    lemma_sum3_split_g, lemma_sum3_split_r, sum3, ColorChannel, VBox, Weight,
};

verus! {

/// Lower bound of `b` on axis `a`.
pub open spec fn axis_lo(b: VBox, a: ColorChannel) -> int {
    match a {
        ColorChannel::Red => b.r_min as int,
        ColorChannel::Green => b.g_min as int,
        ColorChannel::Blue => b.b_min as int,
    }
}

/// Upper bound of `b` on axis `a`.
pub open spec fn axis_hi(b: VBox, a: ColorChannel) -> int {
    match a {
        ColorChannel::Red => b.r_max as int,
        ColorChannel::Green => b.g_max as int,
        ColorChannel::Blue => b.b_max as int,
    }
}

/// Population of the part of `b` whose coordinate on axis `a` lies in `[lo, hi)`.
pub open spec fn slab(h: Seq<i32>, b: VBox, a: ColorChannel, lo: int, hi: int) -> int {
    let (r0, r1, g0, g1, b0, b1) = (
        b.r_min as int,
        b.r_max + 1,
        b.g_min as int,
        b.g_max + 1,
        b.b_min as int,
        b.b_max + 1,
    );
    match a {
        ColorChannel::Red => sum3(h, Weight::Count, lo, hi, g0, g1, b0, b1),
        ColorChannel::Green => sum3(h, Weight::Count, r0, r1, lo, hi, b0, b1),
        ColorChannel::Blue => sum3(h, Weight::Count, r0, r1, g0, g1, lo, hi),
    }
}

/// Population of `b` up to coordinate `c` (inclusive) on axis `a`.
pub open spec fn prefix(h: Seq<i32>, b: VBox, a: ColorChannel, c: int) -> int {
    slab(h, b, a, axis_lo(b, a), c + 1)
}

/// The running population at `c`, or -1 outside the box.
pub open spec fn partial(h: Seq<i32>, b: VBox, a: ColorChannel, c: int) -> int {
    if axis_lo(b, a) <= c <= axis_hi(b, a) {
        prefix(h, b, a, c)
    } else {
        -1
    }
}

/// The population strictly beyond `c`, or -1 outside the box.
pub open spec fn look_ahead(h: Seq<i32>, b: VBox, a: ColorChannel, c: int) -> int {
    if axis_lo(b, a) <= c <= axis_hi(b, a) {
        b.population(h) - prefix(h, b, a, c)
    } else {
        -1
    }
}

/// The first coordinate from `c` on whose running population exceeds half
/// the box (the upper bound if none does before it).
pub open spec fn first_over_half(h: Seq<i32>, b: VBox, a: ColorChannel, c: int) -> int
    decreases 256 - c,
{
    if c >= axis_hi(b, a) || prefix(h, b, a, c) > b.population(h) / 2 {
        c
    } else {
        first_over_half(h, b, a, c + 1)
    }
}

/// The first guess of the cut from the balance point `i` of `[lo, hi]`: half
/// way into the longer side. On the lower side this is
/// `floor((i - 1) - left / 2)`, which equals its truncation wherever the
/// lower bound `lo >= 0` does not take over.
pub open spec fn initial_cut(lo: int, hi: int, i: int) -> int {
    let left = i - lo;
    let right = hi - i;
    if left <= right {
        if hi - 1 < i + right / 2 {
            hi - 1
        } else {
            i + right / 2
        }
    } else {
        let d = (2 * (i - 1) - left) / 2;
        if d < lo {
            lo
        } else {
            d
        }
    }
}

/// Moves `d` up past coordinates that hold no population yet.
pub open spec fn nudge_forward(h: Seq<i32>, b: VBox, a: ColorChannel, d: int) -> int
    decreases 256 - d,
{
    if d < 255 && (d < 0 || partial(h, b, a, d) <= 0) {
        nudge_forward(h, b, a, d + 1)
    } else {
        d
    }
}

/// Moves `d` down while nothing lies beyond it and the coordinate below
/// already holds population.
pub open spec fn nudge_back(h: Seq<i32>, b: VBox, a: ColorChannel, d: int) -> int
    decreases d,
{
    if d > 0 && look_ahead(h, b, a, d) == 0 && partial(h, b, a, d - 1) > 0 {
        nudge_back(h, b, a, d - 1)
    } else {
        d
    }
}

/// The last coordinate, on the widest axis of `b`, of the first half of the split.
pub open spec fn cut_point(h: Seq<i32>, b: VBox) -> int {
    let a = b.widest();
    let lo = axis_lo(b, a);
    let i = first_over_half(h, b, a, lo);
    nudge_back(h, b, a, nudge_forward(h, b, a, initial_cut(lo, axis_hi(b, a), i)))
}

/// `c` has the bounds of `b`, but `[lo, hi]` on axis `a`.
pub open spec fn part_of(b: VBox, a: ColorChannel, lo: int, hi: int, c: VBox) -> bool {
    match a {
        ColorChannel::Red => c.r_min == lo && c.r_max == hi && c.g_min == b.g_min && c.g_max == b.g_max
            && c.b_min == b.b_min && c.b_max == b.b_max,
        ColorChannel::Green => c.r_min == b.r_min && c.r_max == b.r_max && c.g_min == lo && c.g_max == hi
            && c.b_min == b.b_min && c.b_max == b.b_max,
        ColorChannel::Blue => c.r_min == b.r_min && c.r_max == b.r_max && c.g_min == b.g_min && c.g_max
            == b.g_max && c.b_min == lo && c.b_max == hi,
    }
}

/// The result of splitting a box with population: the box alone when it
/// holds one pixel, else its two halves around `cut_point`.
pub open spec fn median_split(h: Seq<i32>, b: VBox) -> (VBox, Option<VBox>) {
    let d = cut_point(h, b);
    if b.count == 1 {
        (b, None)
    } else {
        match b.widest() {
            ColorChannel::Red => (
                make_box(h, b.r_min, d as u8, b.g_min, b.g_max, b.b_min, b.b_max),
                Some(make_box(h, (d + 1) as u8, b.r_max, b.g_min, b.g_max, b.b_min, b.b_max)),
            ),
            ColorChannel::Green => (
                make_box(h, b.r_min, b.r_max, b.g_min, d as u8, b.b_min, b.b_max),
                Some(make_box(h, b.r_min, b.r_max, (d + 1) as u8, b.g_max, b.b_min, b.b_max)),
            ),
            ColorChannel::Blue => (
                make_box(h, b.r_min, b.r_max, b.g_min, b.g_max, b.b_min, d as u8),
                Some(make_box(h, b.r_min, b.r_max, b.g_min, b.g_max, (d + 1) as u8, b.b_max)),
            ),
        }
    }
}

/// `b1` and `b2` are the two halves of `b`, cut after `cut_point` on its
/// widest axis, with their measures computed from `h`.
pub open spec fn split_of(h: Seq<i32>, b: VBox, b1: VBox, b2: VBox) -> bool {
    let a = b.widest();
    let d = cut_point(h, b);
    &&& b1.wf(h)
    &&& b2.wf(h)
    &&& part_of(b, a, axis_lo(b, a), d, b1)
    &&& part_of(b, a, d + 1, axis_hi(b, a), b2)
}

proof fn lemma_slab_split(h: Seq<i32>, b: VBox, a: ColorChannel, lo: int, m: int, hi: int)
    requires
        lo <= m <= hi,
    ensures
        slab(h, b, a, lo, hi) == slab(h, b, a, lo, m) + slab(h, b, a, m, hi),
{
    let (r0, r1, g0, g1, b0, b1) = (
        b.r_min as int,
        b.r_max + 1,
        b.g_min as int,
        b.g_max + 1,
        b.b_min as int,
        b.b_max + 1,
    );
    match a {
        ColorChannel::Red => lemma_sum3_split_r(h, Weight::Count, lo, m, hi, g0, g1, b0, b1),
        ColorChannel::Green => lemma_sum3_split_g(h, Weight::Count, r0, r1, lo, m, hi, b0, b1),
        ColorChannel::Blue => lemma_sum3_split_b(h, Weight::Count, r0, r1, g0, g1, lo, m, hi),
    }
}

proof fn lemma_slab_facts(h: Seq<i32>, b: VBox, a: ColorChannel, lo: int, hi: int)
    requires
        hist_wf(h),
        b.in_cube(),
        0 <= lo,
        hi <= axis_hi(b, a) + 1,
    ensures
        slab(h, b, a, lo, hi) >= 0,
        hi <= lo ==> slab(h, b, a, lo, hi) == 0,
{
    let (r0, r1, g0, g1, b0, b1) = (
        b.r_min as int,
        b.r_max + 1,
        b.g_min as int,
        b.g_max + 1,
        b.b_min as int,
        b.b_max + 1,
    );
    match a {
        ColorChannel::Red => {
            lemma_sum3_nonneg(h, lo, hi, g0, g1, b0, b1);
            if hi <= lo {
                lemma_sum3_empty(h, Weight::Count, lo, hi, g0, g1, b0, b1);
            }
        },
        ColorChannel::Green => {
            lemma_sum3_nonneg(h, r0, r1, lo, hi, b0, b1);
            if hi <= lo {
                lemma_sum3_empty(h, Weight::Count, r0, r1, lo, hi, b0, b1);
            }
        },
        ColorChannel::Blue => {
            lemma_sum3_nonneg(h, r0, r1, g0, g1, lo, hi);
            if hi <= lo {
                lemma_sum3_empty(h, Weight::Count, r0, r1, g0, g1, lo, hi);
            }
        },
    }
}

/// The running population grows along the axis and ends at the box's population.
proof fn lemma_prefix_mono(h: Seq<i32>, b: VBox, a: ColorChannel, c1: int, c2: int)
    requires
        hist_wf(h),
        b.in_cube(),
        axis_lo(b, a) - 1 <= c1 <= c2 <= axis_hi(b, a),
    ensures
        0 <= prefix(h, b, a, c1) <= prefix(h, b, a, c2) <= b.population(h),
        prefix(h, b, a, axis_lo(b, a) - 1) == 0,
        prefix(h, b, a, axis_hi(b, a)) == b.population(h),
{
    let lo = axis_lo(b, a);
    let hi = axis_hi(b, a);
    lemma_slab_split(h, b, a, lo, c1 + 1, c2 + 1);
    lemma_slab_split(h, b, a, lo, c2 + 1, hi + 1);
    lemma_slab_facts(h, b, a, lo, c1 + 1);
    lemma_slab_facts(h, b, a, c1 + 1, c2 + 1);
    lemma_slab_facts(h, b, a, c2 + 1, hi + 1);
    lemma_slab_facts(h, b, a, lo, lo);
}

proof fn lemma_first_over_half(h: Seq<i32>, b: VBox, a: ColorChannel, c: int)
    requires
        hist_wf(h),
        b.in_cube(),
        b.population(h) > 0,
        axis_lo(b, a) <= c <= axis_hi(b, a),
    ensures
        c <= first_over_half(h, b, a, c) <= axis_hi(b, a),
        prefix(h, b, a, first_over_half(h, b, a, c)) > b.population(h) / 2,
    decreases axis_hi(b, a) - c,
{
    lemma_prefix_mono(h, b, a, c, axis_hi(b, a));
    if !(c >= axis_hi(b, a) || prefix(h, b, a, c) > b.population(h) / 2) {
        lemma_first_over_half(h, b, a, c + 1);
    }
}

proof fn lemma_nudge_forward(h: Seq<i32>, b: VBox, a: ColorChannel, i: int, d: int)
    requires
        b.in_cube(),
        axis_lo(b, a) <= i <= axis_hi(b, a),
        forall|c: int| i <= c <= axis_hi(b, a) ==> #[trigger] partial(h, b, a, c) > 0,
        d <= axis_hi(b, a),
    ensures
        axis_lo(b, a) <= nudge_forward(h, b, a, d) <= axis_hi(b, a),
        partial(h, b, a, nudge_forward(h, b, a, d)) > 0,
    decreases axis_hi(b, a) - d,
{
    if d < 0 || partial(h, b, a, d) <= 0 {
        assert(d < i) by {
            if d >= i {
                assert(partial(h, b, a, d) > 0);
            }
        }
        lemma_nudge_forward(h, b, a, i, d + 1);
    }
}

proof fn lemma_nudge_back(h: Seq<i32>, b: VBox, a: ColorChannel, d: int)
    requires
        axis_lo(b, a) <= d <= axis_hi(b, a),
    ensures
        axis_lo(b, a) <= nudge_back(h, b, a, d) <= d,
    decreases d,
{
    if d > 0 && look_ahead(h, b, a, d) == 0 && partial(h, b, a, d - 1) > 0 {
        lemma_nudge_back(h, b, a, d - 1);
    }
}

/// The cut of a box with population falls inside its bounds on the widest
/// axis, so the two halves `[lo, d]` and `[d + 1, hi]` are disjoint, cover
/// the box's range on that axis, and share its other bounds; their
/// populations add up to the box's.
pub proof fn lemma_split_partitions(h: Seq<i32>, b: VBox, b1: VBox, b2: VBox)
    requires
        hist_wf(h),
        b.wf(h),
        b.population(h) > 0,
        split_of(h, b, b1, b2),
    ensures
        axis_lo(b, b.widest()) <= cut_point(h, b) <= axis_hi(b, b.widest()),
        axis_lo(b1, b.widest()) == axis_lo(b, b.widest()),
        axis_hi(b1, b.widest()) + 1 == axis_lo(b2, b.widest()),
        axis_hi(b2, b.widest()) == axis_hi(b, b.widest()),
        b1.population(h) + b2.population(h) == b.population(h),
{
    let a = b.widest();
    let lo = axis_lo(b, a);
    let hi = axis_hi(b, a);
    lemma_populated_non_empty(h, b);
    lemma_cut_in_box(h, b);
    let d = cut_point(h, b);
    lemma_slab_split(h, b, a, lo, d + 1, hi + 1);
}

/// The cut point of a box with population lies within its widest axis.
proof fn lemma_cut_in_box(h: Seq<i32>, b: VBox)
    requires
        hist_wf(h),
        b.in_cube(),
        b.population(h) > 0,
        b.non_empty(),
    ensures
        axis_lo(b, b.widest()) <= cut_point(h, b) <= axis_hi(b, b.widest()),
{
    let a = b.widest();
    let lo = axis_lo(b, a);
    let hi = axis_hi(b, a);
    lemma_first_over_half(h, b, a, lo);
    let i = first_over_half(h, b, a, lo);
    assert forall|c: int| i <= c <= hi implies #[trigger] partial(h, b, a, c) > 0 by {
        lemma_prefix_mono(h, b, a, i, c);
    }
    let d0 = initial_cut(lo, hi, i);
    lemma_nudge_forward(h, b, a, i, d0);
    lemma_nudge_back(h, b, a, nudge_forward(h, b, a, d0));
}

/// A box of positive population is non-empty on every axis.
pub proof fn lemma_populated_non_empty(h: Seq<i32>, b: VBox)
    requires
        b.population(h) != 0,
    ensures
        b.non_empty(),
{
    if !b.non_empty() {
        lemma_sum3_empty(
            h,
            Weight::Count,
            b.r_min as int,
            b.r_max + 1,
            b.g_min as int,
            b.g_max + 1,
            b.b_min as int,
            b.b_max + 1,
        );
    }
}

/// Population of the slice of `vbox` at coordinate `c` of axis `axis`.
fn slice_count(histogram: &Vec<i32>, vbox: &VBox, axis: ColorChannel, c: u8) -> (n: i64)
    requires
        hist_wf(histogram@),
        vbox.in_cube(),
        c < 32,
    ensures
        n == slab(histogram@, *vbox, axis, c as int, c + 1),
{
    let s = match axis {
        ColorChannel::Red => box_sums(histogram, c, c, vbox.g_min, vbox.g_max, vbox.b_min, vbox.b_max),
        ColorChannel::Green => box_sums(histogram, vbox.r_min, vbox.r_max, c, c, vbox.b_min, vbox.b_max),
        ColorChannel::Blue => box_sums(histogram, vbox.r_min, vbox.r_max, vbox.g_min, vbox.g_max, c, c),
    };
    s.0
}

/// Splits `vbox` at a population-balanced point of its widest axis.
///
/// A box without population cannot be split; a box holding a single pixel
/// comes back unchanged, alone. Any other box is cut after `cut_point` into
/// two boxes with freshly computed measures.
pub fn apply_median_cut(histogram: &Vec<i32>, vbox: &VBox) -> (res: Result<(VBox, Option<VBox>), Error>)
    requires
        hist_wf(histogram@),
        vbox.wf(histogram@),
    ensures
        vbox.count == 0 <==> res == Err::<(VBox, Option<VBox>), Error>(Error::InvalidVBox),
        vbox.count == 1 ==> res == Ok::<(VBox, Option<VBox>), Error>((*vbox, None)),
        vbox.count >= 2 ==> match res {
            Ok((b1, Some(b2))) => split_of(histogram@, *vbox, b1, b2),
            _ => false,
        },
        vbox.count >= 1 ==> res == Ok::<(VBox, Option<VBox>), Error>(median_split(histogram@, *vbox)),
{
    let ghost h = histogram@;
    if vbox.count == 0 {
        return Err(Error::InvalidVBox);
    }
    if vbox.count == 1 {
        return Ok((*vbox, None));
    }
    proof {
        lemma_populated_non_empty(h, *vbox);
    }
    let axis = vbox.widest_color_channel();
    let (lo, hi) = match axis {
        ColorChannel::Red => (vbox.r_min, vbox.r_max),
        ColorChannel::Green => (vbox.g_min, vbox.g_max),
        ColorChannel::Blue => (vbox.b_min, vbox.b_max),
    };
    let mut partial_sum: Vec<i64> = vec![-1i64; VBOX_LENGTH];
    let mut total: i64 = 0;
    let mut c: u8 = lo;
    proof {
        lemma_prefix_mono(h, *vbox, axis, lo - 1, hi as int);
    }
    while c <= hi
        invariant
            hist_wf(h),
            h == histogram@,
            vbox.wf(h),
            vbox.non_empty(),
            lo == axis_lo(*vbox, axis),
            hi == axis_hi(*vbox, axis),
            hi < 32,
            lo <= c <= hi + 1,
            partial_sum@.len() == 32,
            total == prefix(h, *vbox, axis, c - 1),
            forall|k: int|
                0 <= k < 32 ==> #[trigger] partial_sum@[k] == if lo <= k < c {
                    prefix(h, *vbox, axis, k)
                } else {
                    -1
                },
        decreases hi + 1 - c,
    {
        let s = slice_count(histogram, vbox, axis, c);
        proof {
            lemma_slab_split(h, *vbox, axis, lo as int, c as int, c + 1);
            lemma_prefix_mono(h, *vbox, axis, c as int, hi as int);
        }
        total = total + s;
        partial_sum.set(c as usize, total);
        c = c + 1;
    }
    proof {
        lemma_prefix_mono(h, *vbox, axis, hi as int, hi as int);
    }
    let mut look_ahead_sum: Vec<i64> = vec![-1i64; VBOX_LENGTH];
    let mut k: usize = 0;
    while k < 32
        invariant
            hist_wf(h),
            vbox.in_cube(),
            lo == axis_lo(*vbox, axis),
            hi == axis_hi(*vbox, axis),
            lo <= hi < 32,
            total == vbox.population(h),
            partial_sum@.len() == 32,
            look_ahead_sum@.len() == 32,
            forall|j: int| 0 <= j < 32 ==> #[trigger] partial_sum@[j] == partial(h, *vbox, axis, j),
            forall|j: int|
                0 <= j < 32 ==> #[trigger] look_ahead_sum@[j] == if j < k {
                    look_ahead(h, *vbox, axis, j)
                } else {
                    -1
                },
        decreases 32 - k,
    {
        proof {
            if lo <= k <= hi {
                lemma_prefix_mono(h, *vbox, axis, k as int, hi as int);
            }
        }
        if partial_sum[k] != -1 {
            look_ahead_sum.set(k, total - partial_sum[k]);
        }
        k = k + 1;
    }
    cut(axis, vbox, histogram, &partial_sum, &look_ahead_sum, total)
}

/// Finds the cut on `axis` from the running populations of `vbox` and
/// builds the two halves.
fn cut(
    axis: ColorChannel,
    vbox: &VBox,
    histogram: &Vec<i32>,
    partial_sum: &Vec<i64>,
    look_ahead_sum: &Vec<i64>,
    total: i64,
) -> (res: Result<(VBox, Option<VBox>), Error>)
    requires
        hist_wf(histogram@),
        vbox.wf(histogram@),
        vbox.non_empty(),
        axis == vbox.widest(),
        total == vbox.population(histogram@),
        total >= 2,
        partial_sum@.len() == 32,
        look_ahead_sum@.len() == 32,
        forall|j: int| 0 <= j < 32 ==> #[trigger] partial_sum@[j] == partial(histogram@, *vbox, axis, j),
        forall|j: int| 0 <= j < 32 ==> #[trigger] look_ahead_sum@[j] == look_ahead(histogram@, *vbox, axis, j),
    ensures
        match res {
            Ok((b1, Some(b2))) => split_of(histogram@, *vbox, b1, b2),
            _ => false,
        },
        res == Ok::<(VBox, Option<VBox>), Error>(median_split(histogram@, *vbox)),
{
    let ghost h = histogram@;
    let (vbox_min, vbox_max) = match axis {
        ColorChannel::Red => (vbox.r_min as i64, vbox.r_max as i64),
        ColorChannel::Green => (vbox.g_min as i64, vbox.g_max as i64),
        ColorChannel::Blue => (vbox.b_min as i64, vbox.b_max as i64),
    };
    proof {
        lemma_prefix_mono(h, *vbox, axis, vbox_max as int, vbox_max as int);
    }
    let mut i: i64 = vbox_min;
    while i <= vbox_max
        invariant
            hist_wf(h),
            h == histogram@,
            vbox.wf(h),
            vbox_min == axis_lo(*vbox, axis),
            vbox_max == axis_hi(*vbox, axis),
            vbox_min <= i <= vbox_max < 32,
            axis == vbox.widest(),
            total == vbox.population(h),
            total >= 2,
            prefix(h, *vbox, axis, vbox_max as int) == total,
            partial_sum@.len() == 32,
            look_ahead_sum@.len() == 32,
            forall|j: int| 0 <= j < 32 ==> #[trigger] partial_sum@[j] == partial(h, *vbox, axis, j),
            forall|j: int| 0 <= j < 32 ==> #[trigger] look_ahead_sum@[j] == look_ahead(h, *vbox, axis, j),
            first_over_half(h, *vbox, axis, vbox_min as int) == first_over_half(h, *vbox, axis, i as int),
        decreases vbox_max - i,
    {
        if partial_sum[i as usize] <= total / 2 {
            i = i + 1;
            continue;
        }
        assert(first_over_half(h, *vbox, axis, i as int) == i);
        let d2 = cut_coordinate(axis, vbox, histogram, partial_sum, look_ahead_sum, vbox_min, vbox_max, i);
        assert(d2 == cut_point(h, *vbox));
        let (vbox1, vbox2) = match axis {
            ColorChannel::Red => (
                VBox::new(vbox.r_min, d2 as u8, vbox.g_min, vbox.g_max, vbox.b_min, vbox.b_max, histogram),
                VBox::new((d2 + 1) as u8, vbox.r_max, vbox.g_min, vbox.g_max, vbox.b_min, vbox.b_max, histogram),
            ),
            ColorChannel::Green => (
                VBox::new(vbox.r_min, vbox.r_max, vbox.g_min, d2 as u8, vbox.b_min, vbox.b_max, histogram),
                VBox::new(vbox.r_min, vbox.r_max, (d2 + 1) as u8, vbox.g_max, vbox.b_min, vbox.b_max, histogram),
            ),
            ColorChannel::Blue => (
                VBox::new(vbox.r_min, vbox.r_max, vbox.g_min, vbox.g_max, vbox.b_min, d2 as u8, histogram),
                VBox::new(vbox.r_min, vbox.r_max, vbox.g_min, vbox.g_max, (d2 + 1) as u8, vbox.b_max, histogram),
            ),
        };
        return Ok((vbox1, Some(vbox2)));
    }
    Err(Error::VBoxCutFailed)
}

/// The cut coordinate from the balance point `i`: the first guess, moved
/// forward off empty coordinates, then back while nothing lies beyond it.
fn cut_coordinate(
    axis: ColorChannel,
    vbox: &VBox,
    histogram: &Vec<i32>,
    partial_sum: &Vec<i64>,
    look_ahead_sum: &Vec<i64>,
    vbox_min: i64,
    vbox_max: i64,
    i: i64,
) -> (d: i64)
    requires
        hist_wf(histogram@),
        vbox.wf(histogram@),
        vbox_min == axis_lo(*vbox, axis),
        vbox_max == axis_hi(*vbox, axis),
        vbox_min <= i <= vbox_max < 32,
        prefix(histogram@, *vbox, axis, i as int) > vbox.population(histogram@) / 2,
        partial_sum@.len() == 32,
        look_ahead_sum@.len() == 32,
        forall|j: int| 0 <= j < 32 ==> #[trigger] partial_sum@[j] == partial(histogram@, *vbox, axis, j),
        forall|j: int| 0 <= j < 32 ==> #[trigger] look_ahead_sum@[j] == look_ahead(histogram@, *vbox, axis, j),
    ensures
        d == nudge_back(
            histogram@,
            *vbox,
            axis,
            nudge_forward(histogram@, *vbox, axis, initial_cut(vbox_min as int, vbox_max as int, i as int)),
        ),
        vbox_min <= d <= vbox_max,
{
    let ghost h = histogram@;
    proof {
        lemma_prefix_mono(h, *vbox, axis, vbox_max as int, vbox_max as int);
    }
    let left = i - vbox_min;
    let right = vbox_max - i;
    // The lower branch reproduces `max(min, trunc((i - 1) - left / 2.0))`:
    // a negative value never beats the lower bound, so flooring it is the same.
    let mut d2: i64 = if left <= right {
        if vbox_max - 1 < i + right / 2 {
            vbox_max - 1
        } else {
            i + right / 2
        }
    } else {
        let twice = 2 * (i - 1) - left;
        if twice < 0 {
            vbox_min
        } else if twice / 2 < vbox_min {
            vbox_min
        } else {
            twice / 2
        }
    };
    assert(d2 == initial_cut(vbox_min as int, vbox_max as int, i as int));
    proof {
        assert forall|c: int| i <= c <= vbox_max implies #[trigger] partial(h, *vbox, axis, c) > 0 by {
            lemma_prefix_mono(h, *vbox, axis, i as int, c);
        }
    }
    let ghost d0 = d2 as int;
    while d2 < 0 || partial_sum[d2 as usize] <= 0
        invariant
            vbox_min == axis_lo(*vbox, axis),
            vbox_max == axis_hi(*vbox, axis),
            vbox_min <= i <= vbox_max < 32,
            d2 <= vbox_max,
            partial_sum@.len() == 32,
            forall|j: int| 0 <= j < 32 ==> #[trigger] partial_sum@[j] == partial(h, *vbox, axis, j),
            forall|c: int| i <= c <= vbox_max ==> #[trigger] partial(h, *vbox, axis, c) > 0,
            nudge_forward(h, *vbox, axis, d0) == nudge_forward(h, *vbox, axis, d2 as int),
        decreases vbox_max - d2,
    {
        assert(d2 < i) by {
            if d2 >= i {
                assert(partial(h, *vbox, axis, d2 as int) > 0);
            }
        }
        d2 = d2 + 1;
    }
    let ghost d1 = d2 as int;
    assert(vbox_min <= d2) by {
        if d2 < vbox_min {
            assert(partial(h, *vbox, axis, d2 as int) == -1);
        }
    }
    let mut count2 = look_ahead_sum[d2 as usize];
    while count2 == 0 && d2 > 0 && partial_sum[(d2 - 1) as usize] > 0
        invariant
            vbox_min == axis_lo(*vbox, axis),
            vbox_max == axis_hi(*vbox, axis),
            vbox_min <= d2 <= vbox_max < 32,
            partial_sum@.len() == 32,
            look_ahead_sum@.len() == 32,
            forall|j: int| 0 <= j < 32 ==> #[trigger] partial_sum@[j] == partial(h, *vbox, axis, j),
            forall|j: int| 0 <= j < 32 ==> #[trigger] look_ahead_sum@[j] == look_ahead(h, *vbox, axis, j),
            count2 == look_ahead(h, *vbox, axis, d2 as int),
            nudge_back(h, *vbox, axis, d1) == nudge_back(h, *vbox, axis, d2 as int),
        decreases d2,
    {
        assert(vbox_min <= d2 - 1) by {
            if d2 - 1 < vbox_min {
                assert(partial(h, *vbox, axis, d2 - 1) == -1);
            }
        }
        d2 = d2 - 1;
        count2 = look_ahead_sum[d2 as usize];
    }
    d2
}

} // verus!

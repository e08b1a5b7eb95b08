//! The two-phase median-cut iteration and the public palette operation.
use vstd::prelude::*;

use crate::color::{Color, ColorFormat, Error};
use crate::histogram::{high, hits, lemma_no_survivors, lemma_survivor_witness, lemma_survivors_nonneg, low, pixel_total, reduced_at, make_histogram_and_vbox, survivors};
use crate::median_cut::{apply_median_cut, lemma_populated_non_empty, median_split};
use crate::vbox::{hist_wf, lemma_sum3_empty, lemma_sum3_ge_cell, make_box, VBox, Weight};
use crate::color::channel_count;

verus! {

broadcast use vstd::seq_lib::group_to_multiset_ensures;

/// Upper limit of splitting rounds in each phase.
pub const MAX_ITERATIONS: u32 = 1000;

/// How the queue of boxes is ordered: by population, or by population
/// times volume (by volume between boxes of equal population).
#[derive(Clone, Copy, Debug, PartialEq, Eq, Structural)]
pub enum Order {
    ByCount,
    ByProduct,
}

/// The measures of a box stay in the ranges that its construction gives:
/// a populated box spans between 1 and 32768 cells.
pub open spec fn ranked(b: VBox) -> bool {
    &&& 0 <= b.count <= 70368744144896
    &&& b.count > 0 ==> 1 <= b.volume <= 32768
}

/// `a` sorts strictly after `b` under `order`.
pub open spec fn sorts_after(order: Order, a: VBox, b: VBox) -> bool {
    match order {
        Order::ByCount => a.count > b.count,
        Order::ByProduct => if a.count == b.count {
            a.volume > b.volume
        } else {
            a.count * a.volume > b.count * b.volume
        },
    }
}

/// A sort key that orders as `sorts_after` does, lexicographically.
pub open spec fn sort_key(order: Order, b: VBox) -> (int, int) {
    match order {
        Order::ByCount => (b.count as int, 0),
        Order::ByProduct => (b.count * b.volume, if b.count == 0 { b.volume as int } else { 0 }),
    }
}

/// Lexicographic `>` on key pairs.
pub open spec fn key_gt(x: (int, int), y: (int, int)) -> bool {
    x.0 > y.0 || (x.0 == y.0 && x.1 > y.1)
}

/// No box is followed by one that it sorts after.
pub open spec fn sorted_by(order: Order, s: Seq<VBox>) -> bool {
    forall|i: int, j: int| 0 <= i < j < s.len() ==> !sorts_after(order, #[trigger] s[i], #[trigger] s[j])
}

/// `x` inserted into `s` after the last box that it does not sort before.
pub open spec fn insert_sorted(order: Order, s: Seq<VBox>, x: VBox) -> Seq<VBox>
    decreases s.len(),
{
    if s.len() > 0 && sorts_after(order, s.last(), x) {
        insert_sorted(order, s.drop_last(), x).push(s.last())
    } else {
        s.push(x)
    }
}

/// The stable sort of `s` under `order`: each box inserted in turn.
pub open spec fn sorted_spec(order: Order, s: Seq<VBox>) -> Seq<VBox>
    decreases s.len(),
{
    if s.len() == 0 {
        s
    } else {
        insert_sorted(order, sorted_spec(order, s.drop_last()), s.last())
    }
}

proof fn lemma_insert_sorted(order: Order, s: Seq<VBox>, x: VBox, j: int)
    requires
        0 <= j <= s.len(),
        forall|k: int| j <= k < s.len() ==> sorts_after(order, #[trigger] s[k], x),
        j > 0 ==> !sorts_after(order, s[j - 1], x),
    ensures
        insert_sorted(order, s, x) == s.insert(j, x),
    decreases s.len() - j,
{
    if j < s.len() {
        assert(sorts_after(order, s[s.len() - 1], x));
        let t = s.drop_last();
        lemma_insert_sorted(order, t, x, j);
        assert(t.insert(j, x).push(s.last()) =~= s.insert(j, x));
    } else {
        assert(s.push(x) =~= s.insert(j, x));
    }
}

proof fn lemma_ranked(h: Seq<i32>, b: VBox)
    requires
        b.wf(h),
    ensures
        ranked(b),
{
    if b.count > 0 {
        lemma_populated_non_empty(h, b);
        let x = b.r_max - b.r_min + 1;
        let y = b.g_max - b.g_min + 1;
        let z = b.b_max - b.b_min + 1;
        assert(1 <= x * y * z <= 32768) by (nonlinear_arith)
            requires 1 <= x <= 32, 1 <= y <= 32, 1 <= z <= 32;
    }
}

/// `sorts_after` is the strict order of the sort key, so it is transitive
/// and its complement is total.
proof fn lemma_key_orders(order: Order, a: VBox, b: VBox)
    requires
        ranked(a),
        ranked(b),
    ensures
        sorts_after(order, a, b) <==> key_gt(sort_key(order, a), sort_key(order, b)),
{
    if order == Order::ByProduct {
        let (ca, va, cb, vb) = (a.count as int, a.volume as int, b.count as int, b.volume as int);
        assert(ca == 0 ==> ca * va == 0) by (nonlinear_arith);
        assert(cb == 0 ==> cb * vb == 0) by (nonlinear_arith);
        if ca == cb && ca > 0 {
            assert(ca * va > cb * vb <==> va > vb) by (nonlinear_arith)
                requires ca == cb, ca > 0;
        }
        if ca != cb {
            assert(ca > 0 ==> ca * va > 0) by (nonlinear_arith)
                requires ca > 0 ==> va >= 1, ca >= 0;
            assert(cb > 0 ==> cb * vb > 0) by (nonlinear_arith)
                requires cb > 0 ==> vb >= 1, cb >= 0;
        }
    }
}

/// The ordering of two integers.
pub open spec fn ordering_of(x: int, y: int) -> std::cmp::Ordering {
    if x > y {
        std::cmp::Ordering::Greater
    } else if x < y {
        std::cmp::Ordering::Less
    } else {
        std::cmp::Ordering::Equal
    }
}

/// Compares two boxes by population.
pub fn compare_by_count(a: &VBox, b: &VBox) -> (o: std::cmp::Ordering)
    ensures
        o == ordering_of(a.count as int, b.count as int),
        (o == std::cmp::Ordering::Greater) == sorts_after(Order::ByCount, *a, *b),
{
    if a.count > b.count {
        std::cmp::Ordering::Greater
    } else if a.count < b.count {
        std::cmp::Ordering::Less
    } else {
        std::cmp::Ordering::Equal
    }
}

/// Compares two boxes by population times volume; boxes of equal
/// population (empty ones in particular) compare by volume.
pub fn compare_by_product(a: &VBox, b: &VBox) -> (o: std::cmp::Ordering)
    requires
        ranked(*a),
        ranked(*b),
    ensures
        o == (if a.count == b.count {
            ordering_of(a.volume as int, b.volume as int)
        } else {
            ordering_of(a.count * a.volume, b.count * b.volume)
        }),
        (o == std::cmp::Ordering::Greater) == sorts_after(Order::ByProduct, *a, *b),
{
    let (x, y) = if a.count == b.count {
        (a.volume as i64, b.volume as i64)
    } else {
        assert(a.count * a.volume <= 70368744144896 * 32768) by (nonlinear_arith)
            requires ranked(*a);
        assert(b.count * b.volume <= 70368744144896 * 32768) by (nonlinear_arith)
            requires ranked(*b);
        assert(a.count * a.volume >= 0) by (nonlinear_arith)
            requires ranked(*a);
        assert(b.count * b.volume >= 0) by (nonlinear_arith)
            requires ranked(*b);
        (a.count * a.volume as i64, b.count * b.volume as i64)
    };
    if x > y {
        std::cmp::Ordering::Greater
    } else if x < y {
        std::cmp::Ordering::Less
    } else {
        std::cmp::Ordering::Equal
    }
}

/// Whether `a` sorts strictly after `b` under `order`.
fn after(order: Order, a: &VBox, b: &VBox) -> (r: bool)
    requires
        ranked(*a),
        ranked(*b),
    ensures
        r == sorts_after(order, *a, *b),
{
    let o = match order {
        Order::ByCount => compare_by_count(a, b),
        Order::ByProduct => compare_by_product(a, b),
    };
    match o {
        std::cmp::Ordering::Greater => true,
        _ => false,
    }
}

/// Stable sort of the queue under `order`.
pub fn sort_boxes(queue: &mut Vec<VBox>, order: Order)
    requires
        forall|i: int| 0 <= i < old(queue)@.len() ==> ranked(#[trigger] old(queue)@[i]),
    ensures
        final(queue)@.to_multiset() == old(queue)@.to_multiset(),
        final(queue)@.len() == old(queue)@.len(),
        sorted_by(order, final(queue)@),
        old(queue)@.len() <= 1 ==> final(queue)@ == old(queue)@,
        forall|i: int| 0 <= i < final(queue)@.len() ==> ranked(#[trigger] final(queue)@[i]),
        final(queue)@ == sorted_spec(order, old(queue)@),
{
    let mut out: Vec<VBox> = Vec::new();
    let mut i: usize = 0;
    while i < queue.len()
        invariant
            i <= queue@.len(),
            forall|k: int| 0 <= k < queue@.len() ==> ranked(#[trigger] queue@[k]),
            forall|k: int| 0 <= k < out@.len() ==> ranked(#[trigger] out@[k]),
            out@.to_multiset() == queue@.subrange(0, i as int).to_multiset(),
            out@.len() == i,
            sorted_by(order, out@),
            i <= 1 ==> out@ == queue@.subrange(0, i as int),
            out@ == sorted_spec(order, queue@.subrange(0, i as int)),
        decreases queue@.len() - i,
    {
        let x = queue[i];
        let mut j: usize = out.len();
        while j > 0 && after(order, &out[j - 1], &x)
            invariant
                j <= out@.len(),
                ranked(x),
                forall|k: int| 0 <= k < out@.len() ==> ranked(#[trigger] out@[k]),
                forall|k: int| j <= k < out@.len() ==> sorts_after(order, #[trigger] out@[k], x),
            decreases j,
        {
            j = j - 1;
        }
        let ghost before = out@;
        proof {
            assert forall|k: int| 0 <= k < before.len() implies
                key_gt(sort_key(order, #[trigger] before[k]), sort_key(order, x)) == sorts_after(order, before[k], x) by {
                lemma_key_orders(order, before[k], x);
            }
            assert forall|k: int, l: int| 0 <= k < l < before.len() implies
                !key_gt(sort_key(order, #[trigger] before[k]), sort_key(order, #[trigger] before[l])) by {
                lemma_key_orders(order, before[k], before[l]);
            }
        }
        out.insert(j, x);
        proof {
            lemma_insert_sorted(order, before, x, j as int);
            assert(queue@.subrange(0, i + 1).drop_last() =~= queue@.subrange(0, i as int));
            assert(out@ == before.insert(j as int, x));
            assert forall|k: int, l: int| 0 <= k < l < out@.len() implies !sorts_after(
                order,
                #[trigger] out@[k],
                #[trigger] out@[l],
            ) by {
                lemma_key_orders(order, out@[k], out@[l]);
                if j > 0 {
                    lemma_key_orders(order, before[j - 1], x);
                    if k < j as int && l == j as int && k < j - 1 {
                        lemma_key_orders(order, before[k], before[j - 1]);
                    }
                }
                if k < j as int && l > j as int {
                    lemma_key_orders(order, before[k], x);
                    lemma_key_orders(order, before[l - 1], x);
                }
            }
            assert(queue@.subrange(0, i + 1) == queue@.subrange(0, i as int).push(x));
        }
        i = i + 1;
    }
    proof {
        assert(queue@.subrange(0, queue@.len() as int) == queue@);
    }
    *queue = out;
}

/// Every box of the queue carries the measures of `h`.
pub open spec fn all_wf(h: Seq<i32>, q: Seq<VBox>) -> bool {
    forall|i: int| 0 <= i < q.len() ==> (#[trigger] q[i]).wf(h)
}

/// One round of the iteration on a non-empty queue: the new queue, and
/// whether a two-way split happened. An empty last box only re-sorts; any
/// other is replaced by the result of its split, then the queue is sorted.
pub open spec fn round(h: Seq<i32>, order: Order, q: Seq<VBox>) -> (Seq<VBox>, bool) {
    let last = q.last();
    if last.count == 0 {
        (sorted_spec(order, q), false)
    } else {
        let (b1, b2) = median_split(h, last);
        match b2 {
            Some(c) => (sorted_spec(order, q.drop_last().push(b1).push(c)), true),
            None => (sorted_spec(order, q.drop_last().push(b1)), false),
        }
    }
}

/// The queue after at most `left` more rounds, `color` boxes having come
/// out of two-way splits so far; a round that splits stops the iteration
/// once that number reaches `target`.
pub open spec fn rounds(h: Seq<i32>, order: Order, target: int, q: Seq<VBox>, color: int, left: nat) -> Seq<VBox>
    decreases left,
{
    if left == 0 || q.len() == 0 {
        q
    } else {
        let (q2, split) = round(h, order, q);
        let c2 = if split {
            color + 1
        } else {
            color
        };
        if q.last().count != 0 && c2 >= target {
            q2
        } else {
            rounds(h, order, target, q2, c2, (left - 1) as nat)
        }
    }
}

/// The larger of `target` and 2: a phase always makes at least one cut.
pub open spec fn reach(target: u8) -> int {
    if target < 2 {
        2
    } else {
        target as int
    }
}

proof fn lemma_all_ranked(h: Seq<i32>, q: Seq<VBox>)
    requires
        all_wf(h, q),
    ensures
        forall|i: int| 0 <= i < q.len() ==> ranked(#[trigger] q[i]),
{
    assert forall|i: int| 0 <= i < q.len() implies ranked(#[trigger] q[i]) by {
        lemma_ranked(h, q[i]);
    }
}

/// Repeatedly takes the last box of the queue (ordered by `order`), splits
/// it and puts the parts back, until `target` boxes have come out of
/// two-way splits (counting the first box) or the round limit is reached.
///
/// Boxes are only ever split into parts of the same histogram, so the
/// queue only grows, by one box per two-way split; an empty queue, or one
/// that holds only an empty box, is never changed.
pub fn iterate(queue: &mut Vec<VBox>, order: Order, target: u8, histogram: &Vec<i32>) -> (r: Result<(), Error>)
    requires
        hist_wf(histogram@),
        all_wf(histogram@, old(queue)@),
    ensures
        r is Ok,
        all_wf(histogram@, final(queue)@),
        old(queue)@.len() <= final(queue)@.len() < old(queue)@.len() + reach(target),
        (old(queue)@.len() == 1 && old(queue)@[0].count == 0) ==> final(queue)@ == old(queue)@,
        final(queue)@ == rounds(histogram@, order, target as int, old(queue)@, 1, 1000),
{
    let ghost h = histogram@;
    let ghost stuck = old(queue)@.len() == 1 && old(queue)@[0].count == 0;
    let ghost start = queue@;
    if queue.len() == 0 {
        return Ok(());
    }
    let mut color: u32 = 1;
    let mut round: u32 = 0;
    while round < MAX_ITERATIONS
        invariant_except_break
            color == 1 || color < target,
            rounds(h, order, target as int, start, 1, 1000) == rounds(
                h,
                order,
                target as int,
                queue@,
                color as int,
                (1000 - round) as nat,
            ),
        invariant
            round <= 1000,
            color <= reach(target),
            hist_wf(h),
            h == histogram@,
            queue@.len() >= 1,
            all_wf(h, queue@),
            1 <= color,
            queue@.len() == start.len() + color - 1,
            stuck ==> queue@ == start && color == 1,
            stuck == (start.len() == 1 && start[0].count == 0),
        ensures
            queue@ == rounds(h, order, target as int, start, 1, 1000),
        decreases MAX_ITERATIONS - round,
    {
        let ghost q0 = queue@;
        round = round + 1;
        let n = queue.len();
        let vbox = queue[n - 1];
        proof {
            lemma_all_ranked(h, queue@);
        }
        if vbox.count == 0 {
            sort_boxes(queue, order);
            proof {
                assert forall|i: int| 0 <= i < queue@.len() implies (#[trigger] queue@[i]).wf(h) by {
                    assert(queue@.to_multiset().count(queue@[i]) > 0);
                }
            }
            continue;
        }
        queue.pop();
        let ghost rest = queue@;
        let vboxes = match apply_median_cut(histogram, &vbox) {
            Ok(v) => v,
            Err(e) => {
                return Err(e);
            },
        };
        queue.push(vboxes.0);
        let split = match vboxes.1 {
            Some(vb) => {
                queue.push(vb);
                true
            },
            None => false,
        };
        if split {
            color = color + 1;
        }
        proof {
            assert forall|i: int| 0 <= i < queue@.len() implies (#[trigger] queue@[i]).wf(h) by {
                if i < rest.len() {
                    assert(queue@[i] == rest[i]);
                }
            }
            lemma_all_ranked(h, queue@);
        }
        sort_boxes(queue, order);
        proof {
            assert forall|i: int| 0 <= i < queue@.len() implies (#[trigger] queue@[i]).wf(h) by {
                assert(queue@.to_multiset().count(queue@[i]) > 0);
            }
        }
        proof {
            if split {
                assert(rest.push(vboxes.0).push(vboxes.1.unwrap()) == q0.drop_last().push(vboxes.0).push(vboxes.1.unwrap()));
            }
        }
        if color >= target as u32 {
            break;
        }
    }
    Ok(())
}

/// The histogram of the kept samples of a buffer, cell by cell.
pub open spec fn histogram_of(p: Seq<u8>, f: ColorFormat, quality: u8) -> Seq<i32> {
    Seq::new(32768, |k: int| hits(p, f, quality as int, k, 0) as i32)
}

/// The box around the kept samples of a buffer, with the measures of its histogram.
pub open spec fn initial_box(p: Seq<u8>, f: ColorFormat, quality: u8) -> VBox {
    let st = quality as int;
    make_box(
        histogram_of(p, f, quality),
        low(p, f, st, 0, 0) as u8,
        high(p, f, st, 0, 0) as u8,
        low(p, f, st, 1, 0) as u8,
        high(p, f, st, 1, 0) as u8,
        low(p, f, st, 2, 0) as u8,
        high(p, f, st, 2, 0) as u8,
    )
}

/// The palette of a buffer: the population phase up to three quarters of
/// `max_colors` (rounded up), a re-sort by population times volume, the
/// second phase up to the rest, then the box averages from the last box of
/// the queue down, at most `max_colors` of them.
pub open spec fn palette_spec(p: Seq<u8>, f: ColorFormat, quality: u8, max_colors: u8) -> Seq<Color> {
    let h = histogram_of(p, f, quality);
    let q1 = rounds(h, Order::ByCount, (3 * max_colors + 3) / 4, seq![initial_box(p, f, quality)], 1, 1000);
    let q2 = sorted_spec(Order::ByProduct, q1);
    let q3 = rounds(h, Order::ByProduct, max_colors - q2.len(), q2, 1, 1000);
    let n = if q3.len() < max_colors {
        q3.len() as int
    } else {
        max_colors as int
    };
    Seq::new(n as nat, |j: int| q3[q3.len() - 1 - j].average)
}

/// No sampled pixel of the buffer survives the transparency and white filters.
pub open spec fn no_survivor(p: Seq<u8>, f: ColorFormat, quality: u8) -> bool {
    survivors(p, f, quality as int, 0) == 0
}

/// `c` is the cached average of some box of the histogram `h`.
pub open spec fn is_box_average(h: Seq<i32>, c: Color) -> bool {
    exists|b: VBox| #[trigger] b.wf(h) && b.average == c
}

/// Every color of `s` is the cached average of some box of the histogram `h`.
pub open spec fn box_averages(h: Seq<i32>, s: Seq<Color>) -> bool {
    forall|i: int| 0 <= i < s.len() ==> is_box_average(h, #[trigger] s[i])
}

/// What a palette of the buffer is: between one and `max_colors` colors,
/// each the average of a box of the buffer's histogram.
pub open spec fn palette_of(p: Seq<u8>, f: ColorFormat, quality: u8, max_colors: u8, c: Seq<Color>) -> bool {
    &&& 1 <= c.len() <= max_colors
    &&& box_averages(histogram_of(p, f, quality), c)
}

/// Boxes to produce in the population phase: three quarters of the
/// palette, rounded up.
fn population_target(max_colors: u8) -> (t: u8)
    requires
        max_colors >= 2,
    ensures
        t == (3 * max_colors + 3) / 4,
        2 <= t <= max_colors,
{
    ((3 * max_colors as u32 + 3) / 4) as u8
}

/// Builds the histogram, splits boxes by population up to three quarters
/// of the palette, then by population times volume, and returns the box
/// averages from the highest-ranked box down, at most `max_colors` of them.
/// Fails with `InvalidVBox` when no sampled pixel survives the filters.
pub fn quantize(pixels: &[u8], color_format: ColorFormat, quality: u8, max_colors: u8) -> (r: Result<
    Vec<Color>,
    Error,
>)
    requires
        1 <= quality <= 10,
        max_colors >= 2,
        pixel_total(pixels@, color_format) < i32::MAX,
    ensures
        no_survivor(pixels@, color_format, quality) <==> r == Err::<Vec<Color>, Error>(Error::InvalidVBox),
        !no_survivor(pixels@, color_format, quality) ==> (r matches Ok(c) && palette_of(
            pixels@,
            color_format,
            quality,
            max_colors,
            c@,
        ) && c@ == palette_spec(pixels@, color_format, quality, max_colors)),
{
    let (vbox, histogram) = make_histogram_and_vbox(pixels, color_format, quality);
    let ghost h = histogram@;
    proof {
        assert(h =~= histogram_of(pixels@, color_format, quality));
    }
    proof {
        if no_survivor(pixels@, color_format, quality) {
            let st = quality as int;
            lemma_no_survivors(pixels@, color_format, st, 0, 0);
            lemma_no_survivors(pixels@, color_format, st, 1, 0);
            lemma_no_survivors(pixels@, color_format, st, 2, 0);
            lemma_sum3_empty(h, Weight::Count, 255, 1, 255, 1, 255, 1);
        } else {
            lemma_survivors_nonneg(pixels@, color_format, quality as int, 0);
            let j = lemma_survivor_witness(pixels@, color_format, quality as int, 0);
            let pos = j * channel_count(color_format);
            let r = reduced_at(pixels@, color_format, pos, 0);
            let g = reduced_at(pixels@, color_format, pos, 1);
            let b = reduced_at(pixels@, color_format, pos, 2);
            lemma_sum3_ge_cell(
                h,
                r,
                g,
                b,
                vbox.r_min as int,
                vbox.r_max + 1,
                vbox.g_min as int,
                vbox.g_max + 1,
                vbox.b_min as int,
                vbox.b_max + 1,
            );
        }
    }
    // Nothing survived the filters: there is no population to split.
    if vbox.count == 0 {
        return Err(Error::InvalidVBox);
    }
    let mut pq: Vec<VBox> = Vec::new();
    pq.push(vbox);
    proof {
        assert(vbox == initial_box(pixels@, color_format, quality));
        assert(pq@ =~= seq![initial_box(pixels@, color_format, quality)]);
    }
    let target = population_target(max_colors);
    match iterate(&mut pq, Order::ByCount, target, &histogram) {
        Ok(()) => {},
        Err(e) => {
            return Err(e);
        },
    }
    proof {
        lemma_all_ranked(h, pq@);
    }
    let ghost before_sort = pq@;
    sort_boxes(&mut pq, Order::ByProduct);
    proof {
        assert forall|i: int| 0 <= i < pq@.len() implies (#[trigger] pq@[i]).wf(h) by {
            assert(pq@.to_multiset().count(pq@[i]) > 0);
            assert(before_sort.to_multiset().count(pq@[i]) > 0);
        }
    }
    let len = pq.len() as u8;
    match iterate(&mut pq, Order::ByProduct, max_colors - len, &histogram) {
        Ok(()) => {},
        Err(e) => {
            return Err(e);
        },
    }
    let mut colors: Vec<Color> = Vec::new();
    let mut k: usize = pq.len();
    while k > 0 && colors.len() < max_colors as usize
        invariant
            k <= pq@.len(),
            colors@.len() + k == pq@.len(),
            colors@.len() <= max_colors,
            all_wf(h, pq@),
            forall|j: int| 0 <= j < colors@.len() ==> #[trigger] colors@[j] == pq@[pq@.len() - 1 - j].average,
        decreases k,
    {
        k = k - 1;
        colors.push(pq[k].average);
    }
    proof {
        assert forall|i: int| 0 <= i < colors@.len() implies is_box_average(h, #[trigger] colors@[i]) by {
            let b = pq@[pq@.len() - 1 - i];
            assert(b.wf(h));
            assert(b.average == colors@[i]);
        }
        assert(colors@ =~= palette_spec(pixels@, color_format, quality, max_colors));
    }
    Ok(colors)
}

/// Returns a representative palette of raw pixel data.
///
/// `quality` is the sampling step in pixels (1 to 10) and `max_colors` the
/// largest palette wanted (2 or more); the palette may hold fewer colors.
/// When every sampled pixel is nearly transparent or nearly white there is
/// nothing to quantize, and the result is `Err(Error::InvalidVBox)`.
pub fn get_palette(pixels: &[u8], color_format: ColorFormat, quality: u8, max_colors: u8) -> (r: Result<
    Vec<Color>,
    Error,
>)
    requires
        1 <= quality <= 10,
        max_colors >= 2,
        pixel_total(pixels@, color_format) < i32::MAX,
    ensures
        no_survivor(pixels@, color_format, quality) <==> r == Err::<Vec<Color>, Error>(Error::InvalidVBox),
        !no_survivor(pixels@, color_format, quality) ==> (r matches Ok(c) && palette_of(
            pixels@,
            color_format,
            quality,
            max_colors,
            c@,
        ) && c@ == palette_spec(pixels@, color_format, quality, max_colors)),
{
    quantize(pixels, color_format, quality, max_colors)
}

} // verus!

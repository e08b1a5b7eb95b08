use color_thief::histogram::make_histogram_and_vbox;
use color_thief::median_cut::apply_median_cut;
use color_thief::quantize::{compare_by_count, compare_by_product, iterate, sort_boxes, Order};
use color_thief::vbox::{ColorChannel, VBox};
use color_thief::{color_parts, get_palette, make_color_index_of, Color, ColorFormat, Error};
use std::cmp::Ordering;

fn empty_histogram() -> Vec<i32> {
    vec![0i32; 32768]
}

fn near(a: Color, b: Color, tol: i32) -> bool {
    (a.r as i32 - b.r as i32).abs() <= tol
        && (a.g as i32 - b.g as i32).abs() <= tol
        && (a.b as i32 - b.b as i32).abs() <= tol
}

fn noise(len: usize, seed: u32) -> Vec<u8> {
    let mut x = seed;
    let mut out = Vec::with_capacity(len);
    for _ in 0..len {
        x = x.wrapping_mul(1664525).wrapping_add(1013904223);
        out.push((x >> 24) as u8);
    }
    out
}

#[test]
fn synthetic_primaries_skip_white() {
    let pixels = vec![255, 0, 0, 0, 255, 0, 0, 0, 255, 255, 255, 255];
    let colors = get_palette(&pixels, ColorFormat::Rgb, 1, 4).unwrap();
    assert_eq!(colors.len(), 3);
    assert!(near(colors[0], Color::new(255, 0, 0), 8));
    assert!(near(colors[1], Color::new(0, 255, 0), 8));
    assert!(near(colors[2], Color::new(0, 0, 255), 8));
    assert_eq!(colors, vec![Color::new(252, 4, 4), Color::new(4, 252, 4), Color::new(4, 4, 252)]);
}

#[test]
fn all_transparent_is_invalid_vbox() {
    let pixels = vec![10, 20, 30, 0, 200, 100, 50, 124, 1, 2, 3, 90];
    assert_eq!(get_palette(&pixels, ColorFormat::Rgba, 1, 8), Err(Error::InvalidVBox));
    assert_eq!(get_palette(&pixels, ColorFormat::Rgba, 1, 8), Err(Error::InvalidVBox));
    let pixels = vec![0, 0, 0, 0, 255, 255, 255, 100];
    assert_eq!(get_palette(&pixels, ColorFormat::Rgba, 1, 4), Err(Error::InvalidVBox));
}

#[test]
fn all_white_is_invalid_vbox() {
    let pixels = vec![251, 252, 253, 255, 255, 255];
    assert_eq!(get_palette(&pixels, ColorFormat::Rgb, 1, 4), Err(Error::InvalidVBox));
    assert_eq!(get_palette(&[], ColorFormat::Bgr, 1, 4), Err(Error::InvalidVBox));
}

#[test]
fn iterate_on_empty_queue() {
    let h = empty_histogram();
    let mut q: Vec<VBox> = Vec::new();
    assert_eq!(iterate(&mut q, Order::ByCount, 5, &h), Ok(()));
    assert!(q.is_empty());
}

#[test]
fn repeated_calls_agree() {
    let pixels = noise(3 * 500, 7);
    let a = get_palette(&pixels, ColorFormat::Rgb, 3, 10).unwrap();
    let b = get_palette(&pixels, ColorFormat::Rgb, 3, 10).unwrap();
    assert_eq!(a, b);
}

#[test]
fn palette_length_within_bounds() {
    for (seed, max_colors) in [(1u32, 2u8), (2, 5), (3, 10), (4, 16)] {
        let pixels = noise(4 * 400, seed);
        let colors = get_palette(&pixels, ColorFormat::Bgra, 1, max_colors).unwrap();
        assert!(colors.len() >= 1);
        assert!(colors.len() <= max_colors as usize);
    }
}

#[test]
fn single_color_image() {
    let mut pixels = Vec::new();
    for _ in 0..20 {
        pixels.extend_from_slice(&[40, 80, 120]);
    }
    let colors = get_palette(&pixels, ColorFormat::Rgb, 1, 4).unwrap();
    assert!(colors.len() >= 1 && colors.len() <= 4);
    assert_eq!(colors[0], Color::new(44, 84, 124));
}

#[test]
fn quality_steps_over_pixels() {
    // Pixels 0 and 2 are sampled with step 2; pixel 1 is not.
    let pixels = vec![8, 8, 8, 255, 100, 100, 100, 255, 16, 16, 16, 255];
    let (vbox, histogram) = make_histogram_and_vbox(&pixels, ColorFormat::Rgba, 2);
    assert_eq!(histogram[make_color_index_of(1, 1, 1)], 1);
    assert_eq!(histogram[make_color_index_of(2, 2, 2)], 1);
    assert_eq!(histogram[make_color_index_of(12, 12, 12)], 0);
    assert_eq!(histogram.iter().map(|&c| c as i64).sum::<i64>(), 2);
    assert_eq!((vbox.r_min, vbox.r_max, vbox.g_min, vbox.g_max, vbox.b_min, vbox.b_max), (1, 2, 1, 2, 1, 2));
    assert_eq!(vbox.count, 2);
    assert_eq!(vbox.volume, 8);
}

#[test]
fn histogram_skips_white_and_transparent() {
    let pixels = vec![251, 251, 251, 250, 251, 251, 7, 7, 7];
    let (vbox, histogram) = make_histogram_and_vbox(&pixels, ColorFormat::Bgr, 1);
    assert_eq!(histogram[make_color_index_of(31, 31, 31)], 1);
    assert_eq!(histogram[make_color_index_of(0, 0, 0)], 1);
    assert_eq!(vbox.count, 2);
    let argb = vec![100, 255, 0, 0, 200, 0, 255, 0];
    let (vbox, histogram) = make_histogram_and_vbox(&argb, ColorFormat::Argb, 1);
    assert_eq!(histogram[make_color_index_of(0, 31, 0)], 1);
    assert_eq!(vbox.count, 1);
}

#[test]
fn empty_sample_box_is_degenerate() {
    let (vbox, _) = make_histogram_and_vbox(&[], ColorFormat::Rgb, 1);
    assert_eq!((vbox.r_min, vbox.r_max), (255, 0));
    assert_eq!(vbox.count, 0);
    assert_eq!(vbox.volume, -254 * -254 * -254);
    assert_eq!(vbox.average, Color::new(255, 255, 255));
}

#[test]
fn index_packs_channels() {
    assert_eq!(make_color_index_of(0, 0, 0), 0);
    assert_eq!(make_color_index_of(1, 2, 3), 1091);
    assert_eq!(make_color_index_of(31, 31, 31), 32767);
    let mut seen = vec![false; 32768];
    for r in 0..32u8 {
        for g in 0..32u8 {
            for b in 0..32u8 {
                let i = make_color_index_of(r, g, b);
                assert!(!seen[i]);
                seen[i] = true;
                assert_eq!(((i >> 10) as u8, ((i >> 5) & 31) as u8, (i & 31) as u8), (r, g, b));
            }
        }
    }
}

#[test]
fn color_parts_by_format() {
    let p = [1u8, 2, 3, 4];
    assert_eq!(color_parts(&p, ColorFormat::Rgb, 0), (1, 2, 3, 255));
    assert_eq!(color_parts(&p, ColorFormat::Rgba, 0), (1, 2, 3, 4));
    assert_eq!(color_parts(&p, ColorFormat::Argb, 0), (2, 3, 4, 1));
    assert_eq!(color_parts(&p, ColorFormat::Bgr, 0), (3, 2, 1, 255));
    assert_eq!(color_parts(&p, ColorFormat::Bgra, 0), (3, 2, 1, 4));
    assert_eq!(color_parts(&p, ColorFormat::Rgb, 1), (2, 3, 4, 255));
}

#[test]
fn count_is_sum_inside_bounds() {
    let mut h = empty_histogram();
    h[make_color_index_of(2, 3, 4)] = 5;
    h[make_color_index_of(2, 9, 4)] = 7;
    h[make_color_index_of(10, 3, 4)] = 11;
    h[make_color_index_of(2, 3, 20)] = 13;
    let v = VBox::new(0, 5, 0, 10, 0, 10, &h);
    let mut direct = 0i64;
    for r in 0..=5u8 {
        for g in 0..=10u8 {
            for b in 0..=10u8 {
                direct += h[make_color_index_of(r, g, b)] as i64;
            }
        }
    }
    assert_eq!(v.count, direct);
    assert_eq!(v.count, 12);
    assert_eq!(VBox::new(0, 31, 0, 31, 0, 31, &h).count, 36);
}

#[test]
fn volume_and_average() {
    let mut h = empty_histogram();
    h[make_color_index_of(2, 3, 4)] = 5;
    let v = VBox::new(2, 3, 3, 3, 4, 7, &h);
    assert_eq!(v.volume, 2 * 1 * 4);
    assert_eq!(v.average, Color::new(20, 28, 36));
    h[make_color_index_of(3, 3, 4)] = 5;
    let v = VBox::new(2, 3, 3, 3, 4, 7, &h);
    assert_eq!(v.average, Color::new(24, 28, 36));
    let e = VBox::new(0, 31, 4, 5, 30, 31, &empty_histogram());
    assert_eq!(e.count, 0);
    assert_eq!(e.average, Color::new(128, 40, 248));
}

#[test]
fn widest_channel_prefers_red_then_green() {
    let h = empty_histogram();
    assert_eq!(VBox::new(0, 4, 0, 4, 0, 4, &h).widest_color_channel(), ColorChannel::Red);
    assert_eq!(VBox::new(0, 3, 0, 4, 0, 4, &h).widest_color_channel(), ColorChannel::Green);
    assert_eq!(VBox::new(0, 3, 0, 3, 0, 4, &h).widest_color_channel(), ColorChannel::Blue);
}

#[test]
fn split_single_pixel_box_unchanged() {
    let mut h = empty_histogram();
    h[make_color_index_of(5, 6, 7)] = 1;
    let v = VBox::new(0, 31, 0, 31, 0, 31, &h);
    assert_eq!(apply_median_cut(&h, &v), Ok((v, None)));
}

#[test]
fn split_empty_box_fails() {
    let h = empty_histogram();
    let v = VBox::new(0, 31, 0, 31, 0, 31, &h);
    assert_eq!(apply_median_cut(&h, &v), Err(Error::InvalidVBox));
}

#[test]
fn split_children_partition_parent() {
    let mut h = empty_histogram();
    h[make_color_index_of(0, 5, 5)] = 3;
    h[make_color_index_of(20, 5, 5)] = 2;
    let v = VBox::new(0, 20, 5, 5, 5, 5, &h);
    let (a, b) = match apply_median_cut(&h, &v) {
        Ok((a, Some(b))) => (a, b),
        other => panic!("unexpected {:?}", other),
    };
    assert_eq!((a.r_min, b.r_max), (0, 20));
    assert_eq!(a.r_max + 1, b.r_min);
    assert_eq!((a.g_min, a.g_max, a.b_min, a.b_max), (5, 5, 5, 5));
    assert_eq!((b.g_min, b.g_max, b.b_min, b.b_max), (5, 5, 5, 5));
    assert_eq!(a.count + b.count, v.count);
    // i = 0, left = 0 <= right = 20: d = min(19, 0 + 10) = 10.
    assert_eq!(a.r_max, 10);
    assert_eq!((a.count, b.count), (3, 2));
}

#[test]
fn split_lower_branch_cut_point() {
    let mut h = empty_histogram();
    h[make_color_index_of(1, 0, 0)] = 1;
    h[make_color_index_of(9, 0, 0)] = 4;
    let v = VBox::new(0, 10, 0, 0, 0, 0, &h);
    let (a, b) = match apply_median_cut(&h, &v) {
        Ok((a, Some(b))) => (a, b),
        other => panic!("unexpected {:?}", other),
    };
    // i = 9, left = 9 > right = 1: d = max(0, trunc(8 - 4.5)) = 3.
    assert_eq!((a.r_min, a.r_max, b.r_min, b.r_max), (0, 3, 4, 10));
    assert_eq!((a.count, b.count), (1, 4));
}

#[test]
fn split_cell_with_many_pixels_leaves_empty_half() {
    let mut h = empty_histogram();
    h[make_color_index_of(31, 31, 31)] = 3;
    let v = VBox::new(31, 31, 31, 31, 31, 31, &h);
    let (a, b) = match apply_median_cut(&h, &v) {
        Ok((a, Some(b))) => (a, b),
        other => panic!("unexpected {:?}", other),
    };
    assert_eq!((a.r_min, a.r_max), (31, 31));
    assert_eq!((b.r_min, b.r_max), (32, 31));
    assert_eq!((a.count, b.count), (3, 0));
    assert_eq!(b.volume, 0);
}

#[test]
fn comparators_order_boxes() {
    let mut h = empty_histogram();
    h[make_color_index_of(0, 0, 0)] = 2;
    h[make_color_index_of(10, 0, 0)] = 3;
    let small = VBox::new(0, 1, 0, 0, 0, 0, &h);
    let wide = VBox::new(0, 9, 0, 0, 0, 0, &h);
    let other = VBox::new(10, 10, 0, 0, 0, 0, &h);
    assert_eq!(compare_by_count(&small, &other), Ordering::Less);
    assert_eq!(compare_by_count(&other, &small), Ordering::Greater);
    assert_eq!(compare_by_count(&small, &wide), Ordering::Equal);
    assert_eq!(compare_by_product(&small, &small), Ordering::Equal);
    assert_eq!(compare_by_product(&small, &wide), Ordering::Less);
    assert_eq!(compare_by_product(&other, &small), Ordering::Less);
    let e1 = VBox::new(20, 21, 0, 0, 0, 0, &h);
    let e2 = VBox::new(20, 25, 0, 0, 0, 0, &h);
    assert_eq!(compare_by_product(&e2, &e1), Ordering::Greater);
}

#[test]
fn sort_is_stable_and_ordered() {
    let mut h = empty_histogram();
    h[make_color_index_of(0, 0, 0)] = 2;
    h[make_color_index_of(10, 0, 0)] = 2;
    h[make_color_index_of(20, 0, 0)] = 1;
    let a = VBox::new(0, 0, 0, 0, 0, 0, &h);
    let b = VBox::new(10, 10, 0, 0, 0, 0, &h);
    let c = VBox::new(20, 20, 0, 0, 0, 0, &h);
    let mut q = vec![a, b, c];
    sort_boxes(&mut q, Order::ByCount);
    assert_eq!(q, vec![c, a, b]);
}

#[test]
fn iterate_splits_until_target() {
    let mut h = empty_histogram();
    for r in [0u8, 8, 16, 24] {
        h[make_color_index_of(r, 0, 0)] = 1;
    }
    let v = VBox::new(0, 24, 0, 0, 0, 0, &h);
    let mut q = vec![v];
    assert_eq!(iterate(&mut q, Order::ByCount, 3, &h), Ok(()));
    assert_eq!(q.len(), 3);
    assert_eq!(q.iter().map(|b| b.count).sum::<i64>(), 4);
}

#[test]
fn error_messages() {
    assert_eq!(Error::InvalidVBox.message(), "an invalid VBox");
    assert_eq!(Error::VBoxCutFailed.message(), "failed to cut a VBox");
}

#[test]
fn largest_palette_size() {
    let pixels = noise(3 * 3000, 11);
    let colors = get_palette(&pixels, ColorFormat::Rgb, 1, 255).unwrap();
    assert!(colors.len() >= 1 && colors.len() <= 255);
    let again = get_palette(&pixels, ColorFormat::Rgb, 1, 255).unwrap();
    assert_eq!(colors, again);
}

#[test]
fn product_phase_iterates() {
    let mut h = empty_histogram();
    h[make_color_index_of(0, 0, 0)] = 1;
    h[make_color_index_of(0, 0, 30)] = 1;
    let v = VBox::new(0, 0, 0, 0, 0, 30, &h);
    let mut q = vec![v];
    assert_eq!(iterate(&mut q, Order::ByProduct, 0, &h), Ok(()));
    assert_eq!(q.len(), 2);
    assert_eq!((q[0].b_min, q[0].b_max, q[1].b_min, q[1].b_max), (0, 14, 15, 30));
}

use mediancut::pixel::RGB;
use mediancut::{calc_palette, compute_recolored_image, run_image};

fn buffer_of(pixels: &[(u8, u8, u8, u8)]) -> Vec<u8> {
    let mut buf = Vec::new();
    for &(r, g, b, a) in pixels {
        buf.push(r);
        buf.push(g);
        buf.push(b);
        buf.push(a);
    }
    buf
}

#[test]
fn test() {
    let v = vec![0x440044, 0x111100, 0x222200, 0x003333]
        .into_iter()
        .map(RGB::from_u32)
        .collect::<Vec<_>>();
    let v = RGB::calc_palette(v, 2);
    println!("{:?}", v);
}

#[test]
fn histogram_sums_to_pixel_count() {
    // 4 complete records and 3 trailing bytes that are silently dropped
    let mut buf = buffer_of(&[(3, 9, 27, 0), (250, 1, 17, 9), (80, 80, 80, 3), (0, 255, 9, 1)]);
    buf.push(7);
    buf.push(7);
    buf.push(7);
    let hist = run_image(buf);
    assert_eq!(hist.len(), 360);
    let total: usize = hist.iter().sum();
    assert_eq!(total, 4);
}

#[test]
fn histogram_primary_hues() {
    let buf = buffer_of(&[
        (50, 50, 50, 0),  // achromatic: bin 0
        (255, 0, 0, 0),   // red: bin 0
        (0, 255, 0, 0),   // green: bin 120
        (0, 0, 255, 0),   // blue: bin 240
        (255, 0, 255, 0), // magenta, the wrapped red branch: bin 300
    ]);
    let hist = run_image(buf);
    assert_eq!(hist[0], 2);
    assert_eq!(hist[120], 1);
    assert_eq!(hist[240], 1);
    assert_eq!(hist[300], 1);
    let total: usize = hist.iter().sum();
    assert_eq!(total, 5);
}

#[test]
fn mean_truncates_instead_of_rounding() {
    // channel sums 3 over 2 pixels: each mean channel is 1, not 2
    let buf = buffer_of(&[(1, 1, 1, 0), (2, 2, 2, 0)]);
    let pal = calc_palette(buf, 0);
    assert_eq!(pal, vec![0x010101]);
}

#[test]
fn zero_divisions_yield_whole_image_mean() {
    let buf = buffer_of(&[(10, 0, 30, 0), (20, 10, 40, 0), (0, 250, 50, 0)]);
    let pal = calc_palette(buf, 0);
    // means: r = 30/3 = 10, g = 260/3 = 86, b = 120/3 = 40
    assert_eq!(pal, vec![(10 << 16) | (86 << 8) | 40]);
}

#[test]
fn identical_pixels_collapse_to_one_entry() {
    let buf = buffer_of(&[
        (100, 150, 200, 0),
        (100, 150, 200, 10),
        (100, 150, 200, 20),
        (100, 150, 200, 30),
    ]);
    let hist = run_image(buf.clone());
    assert_eq!(hist[210], 4);
    let total: usize = hist.iter().sum();
    assert_eq!(total, 4);

    let pal = calc_palette(buf.clone(), 3);
    assert_eq!(pal, vec![0x6496C8]);

    let out = compute_recolored_image(buf, 3);
    let expected = buffer_of(&[
        (100, 150, 200, 255),
        (100, 150, 200, 255),
        (100, 150, 200, 255),
        (100, 150, 200, 255),
    ]);
    assert_eq!(out, expected);
}

#[test]
fn empty_buffer_gives_empty_results() {
    let hist = run_image(Vec::new());
    assert_eq!(hist.len(), 360);
    assert!(hist.iter().all(|&c| c == 0));
    assert_eq!(calc_palette(Vec::new(), 5), Vec::<u32>::new());
    assert_eq!(compute_recolored_image(Vec::new(), 5), Vec::<u8>::new());
}

#[test]
fn recoloring_forces_alpha_opaque_and_keeps_length() {
    let buf = buffer_of(&[(9, 9, 9, 7), (200, 13, 77, 0), (4, 250, 66, 128)]);
    let out = compute_recolored_image(buf.clone(), 2);
    assert_eq!(out.len(), buf.len());
    for i in (3..out.len()).step_by(4) {
        assert_eq!(out[i], 255);
    }
}

#[test]
fn recoloring_preserves_pixel_order() {
    // two clear clusters laid out dark, light, light, dark
    let buf = buffer_of(&[
        (0, 0, 0, 1),
        (255, 255, 255, 2),
        (255, 255, 255, 3),
        (0, 0, 0, 4),
    ]);
    let out = compute_recolored_image(buf, 1);
    let expected = buffer_of(&[
        (0, 0, 0, 255),
        (255, 255, 255, 255),
        (255, 255, 255, 255),
        (0, 0, 0, 255),
    ]);
    assert_eq!(out, expected);
}

#[test]
fn palette_orders_greater_side_first() {
    let buf = buffer_of(&[
        (0, 0, 0, 0),
        (255, 255, 255, 0),
        (255, 255, 255, 0),
        (0, 0, 0, 0),
    ]);
    let pal = calc_palette(buf, 1);
    assert_eq!(pal, vec![0xFFFFFF, 0x000000]);
}

#[test]
fn equal_red_and_green_ranges_fall_through_to_blue() {
    // red and green ranges are both 10, blue's is 0: the strict comparisons
    // pick neither red nor green, the split runs on blue and cannot separate
    // the two colours, so one mean comes back instead of two
    let buf = buffer_of(&[(0, 0, 0, 0), (10, 10, 0, 0)]);
    let pal = calc_palette(buf, 1);
    assert_eq!(pal, vec![0x050500]);
}

#[test]
fn trailing_bytes_are_dropped_everywhere() {
    let mut buf = buffer_of(&[(8, 16, 32, 200)]);
    buf.push(99);
    buf.push(99);
    buf.push(99);
    let pal = calc_palette(buf.clone(), 4);
    assert_eq!(pal, vec![(8 << 16) | (16 << 8) | 32]);
    let out = compute_recolored_image(buf, 4);
    assert_eq!(out, vec![8, 16, 32, 255]);
}

#[test]
fn single_pixel_palette_is_that_pixel() {
    let buf = buffer_of(&[(12, 34, 56, 0)]);
    let pal = calc_palette(buf, 7);
    assert_eq!(pal, vec![(12 << 16) | (34 << 8) | 56]);
}

#[test]
fn packing_round_trips() {
    let p = RGB::from_u32(0x00ABCDEF);
    assert_eq!(p.to_u32(), 0x00ABCDEF);
    assert_eq!(RGB::white().to_u32(), 0xFFFFFF);
    assert_eq!(RGB::black().to_u32(), 0x000000);
}

#[test]
fn palette_ignores_record_order() {
    let a = buffer_of(&[(10, 200, 3, 0), (240, 9, 77, 1), (13, 13, 200, 2), (90, 90, 90, 3)]);
    let b = buffer_of(&[(13, 13, 200, 9), (10, 200, 3, 8), (90, 90, 90, 7), (240, 9, 77, 6)]);
    assert_eq!(calc_palette(a, 2), calc_palette(b, 2));
}

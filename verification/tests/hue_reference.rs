//! Holds the integer hue bin against a floating-point evaluation of the
//! standard RGB-to-HSL hue formula over a broad sample of colours.
//!
//! The library computes the bin exactly in integers. A floating-point
//! evaluation of the same formula can land a hair below an exact integer
//! boundary — for example (0,7,21), whose hue is exactly 220, evaluates to
//! 219.99999999999997 in f64 — so the comparison checks that the float hue
//! falls inside the exact bin's degree interval up to a tiny error, not that
//! flooring the float reproduces the bin.

use mediancut::pixel::RGB;

fn float_hue_degrees(r: u8, g: u8, b: u8) -> f64 {
    let rf = r as f64 / 255.0;
    let gf = g as f64 / 255.0;
    let bf = b as f64 / 255.0;
    let max = rf.max(gf).max(bf);
    let min = rf.min(gf).min(bf);
    let mut h = (max + min) / 2.0;
    if max == min {
        h = 0.0;
    } else {
        let d = max - min;
        if max == rf {
            h = (gf - bf) / d + if gf < bf { 6.0 } else { 0.0 };
        } else if max == gf {
            h = (bf - rf) / d + 2.0;
        } else if max == bf {
            h = (rf - gf) / d + 4.0;
        }
        h /= 6.0;
    }
    h * 360.0
}

fn check(r: u8, g: u8, b: u8) {
    let p = RGB { r, g, b, index: 0 };
    let bin = p.hue_bucket() as f64;
    let hue = float_hue_degrees(r, g, b);
    assert!(
        bin - 1e-6 <= hue && hue < bin + 1.0 + 1e-6,
        "bin {bin} does not bracket float hue {hue} at ({r},{g},{b})"
    );
}

#[test]
fn hue_bin_brackets_float_hue_on_grid() {
    for r in (0..=255u16).step_by(7) {
        for g in (0..=255u16).step_by(7) {
            for b in (0..=255u16).step_by(7) {
                check(r as u8, g as u8, b as u8);
            }
        }
    }
}

#[test]
fn hue_bin_brackets_float_hue_on_boundaries() {
    let edges: [u8; 8] = [0, 1, 2, 127, 128, 253, 254, 255];
    for &r in &edges {
        for &g in &edges {
            for &b in &edges {
                check(r, g, b);
            }
        }
    }
    // two equal channels, where the branch choice rests on exact ties
    for a in (0..=255u16).step_by(3) {
        for c in (0..=255u16).step_by(3) {
            let a = a as u8;
            let c = c as u8;
            check(a, a, c);
            check(a, c, a);
            check(c, a, a);
        }
    }
}

#[test]
fn hue_of_exact_boundary_colour_is_the_exact_bin() {
    // hue of (0,7,21) is exactly 60*(0-7)/21 + 240 = 220 degrees
    let p = RGB { r: 0, g: 7, b: 21, index: 0 };
    assert_eq!(p.hue_bucket(), 220);
}

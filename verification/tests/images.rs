use portfolio_wasm::image::{
    adjust_brightness, adjust_contrast, apply_blur, apply_color_filter, apply_edge_detection,
    apply_sharpen, blur_applies, filter_pixel, parse_filter, ColorFilter, ImageProcessor,
};
use portfolio_wasm::single::Single;

fn s(x: f32) -> Single {
    Single::from_bits(x.to_bits())
}

fn next(state: &mut u64) -> u8 {
    *state = state.wrapping_mul(6364136223846793005).wrapping_add(1442695040888963407);
    (*state >> 56) as u8
}

fn picture(width: u32, height: u32, seed: u64) -> Vec<u8> {
    let mut state = seed;
    (0..width * height * 4).map(|_| next(&mut state)).collect()
}

#[test]
fn conversions_match_the_machine() {
    let mut b = 0u32;
    while b < 256 {
        assert_eq!(Single::from_u8(b as u8).to_bits(), (b as f32).to_bits());
        b += 1;
    }
    let values = [
        0.0f32, -0.0, 0.4, 0.5, 0.6, 1.0, 1.5, 2.5, 254.4, 254.5, 254.999, 255.0, 255.4, 255.5,
        256.0, 1.0e9, 3.0e9, -0.4, -0.5, -1.0, -300.0, -3.0e9, 1.0e-40, 8388607.5, 16777216.0,
        2147483520.0, 2147483648.0, -2147483648.0, -2147483904.0, f32::INFINITY,
        f32::NEG_INFINITY, f32::NAN, f32::MAX, f32::MIN_POSITIVE,
    ];
    for x in values {
        assert_eq!(s(x).to_u8(), x as u8, "{} as u8", x);
        assert_eq!(s(x).to_int(), x as i32, "{} as i32", x);
        assert_eq!(s(x).round_to_u8(), x.round() as u8, "{} rounded", x);
    }
    let integers = [
        0i32, 1, -1, 255, 16777215, 16777216, 16777217, 16777219, 33554434, 33554438, i32::MAX,
        i32::MIN, -16777217, 123456789, 2080800, 2147483583,
    ];
    for n in integers {
        assert_eq!(Single::from_int(n).to_bits(), (n as f32).to_bits(), "{}", n);
    }
    let mut state = 5u64;
    let mut i = 0;
    while i < 20000 {
        let bits = ((next(&mut state) as u32) << 24)
            | ((next(&mut state) as u32) << 16)
            | ((next(&mut state) as u32) << 8)
            | (next(&mut state) as u32);
        let x = f32::from_bits(bits);
        assert_eq!(s(x).to_u8(), x as u8);
        assert_eq!(s(x).to_int(), x as i32);
        assert_eq!(s(x).round_to_u8(), x.round() as u8);
        assert_eq!(Single::from_int(bits as i32).to_bits(), (bits as i32 as f32).to_bits());
        i += 1;
    }
}

#[test]
fn processor_holds_dimensions() {
    let mut p = ImageProcessor::new(640, 480);
    assert_eq!(p.get_width(), 640);
    assert_eq!(p.get_height(), 480);
    p.set_dimensions(3, 0);
    assert_eq!(p.get_width(), 3);
    assert_eq!(p.get_height(), 0);
}

#[test]
fn brightness_scales_the_colours() {
    let mut data = vec![10, 100, 200, 77, 0, 255, 128, 5];
    adjust_brightness(&mut data, 2, 1, s(1.5));
    assert_eq!(data, vec![15, 150, 255, 77, 0, 255, 192, 5]);
    let mut data = vec![10, 100, 200, 77];
    adjust_brightness(&mut data, 1, 1, s(-1.0));
    assert_eq!(data, vec![0, 0, 0, 77]);
    for factor in [0.0f32, 0.3, 0.999, 1.0, 1.7, 300.0, f32::NAN, f32::INFINITY] {
        let before = picture(5, 4, 11);
        let mut data = before.clone();
        adjust_brightness(&mut data, 5, 4, s(factor));
        for i in 0..before.len() {
            let want = if i % 4 == 3 {
                before[i]
            } else {
                (before[i] as f32 * factor).max(0.0).min(255.0) as u8
            };
            assert_eq!(data[i], want);
        }
    }
}

#[test]
fn filters_leave_what_is_no_image() {
    let before = vec![1, 2, 3, 4, 5, 6, 7];
    let mut data = before.clone();
    adjust_brightness(&mut data, 2, 1, s(2.0));
    assert_eq!(data, before);
    adjust_contrast(&mut data, 1, 1, s(50.0));
    assert_eq!(data, before);
    apply_color_filter(&mut data, 1, 2, "invert");
    assert_eq!(data, before);
    apply_sharpen(&mut data, 7, 1, s(1.0));
    assert_eq!(data, before);
    apply_edge_detection(&mut data, 1, 1);
    assert_eq!(data, before);
    apply_blur(&mut data, 1, 1, &[s(1.0)]);
    assert_eq!(data, before);
}

#[test]
fn contrast_spreads_the_colours() {
    for factor in [-100.0f32, 0.0, 50.0, 128.0, 258.0, 259.0, 300.0, f32::NAN] {
        let before = picture(4, 6, 12);
        let mut data = before.clone();
        adjust_contrast(&mut data, 4, 6, s(factor));
        let spread = (259.0 * (factor + 255.0)) / (255.0 * (259.0 - factor));
        for i in 0..before.len() {
            let want = if i % 4 == 3 {
                before[i]
            } else {
                (spread * (before[i] as f32 - 128.0) + 128.0).max(0.0).min(255.0) as u8
            };
            assert_eq!(data[i], want, "factor {} at {}", factor, i);
        }
    }
    let mut data = vec![100, 128, 200, 9];
    adjust_contrast(&mut data, 1, 1, s(0.0));
    assert_eq!(data, vec![100, 128, 200, 9]);
}

#[test]
fn names_of_filters() {
    assert!(matches!(parse_filter("sepia"), Some(ColorFilter::Sepia)));
    assert!(matches!(parse_filter("grayscale"), Some(ColorFilter::Grayscale)));
    assert!(matches!(parse_filter("invert"), Some(ColorFilter::Invert)));
    assert!(matches!(parse_filter("red"), Some(ColorFilter::Red)));
    assert!(matches!(parse_filter("green"), Some(ColorFilter::Green)));
    assert!(matches!(parse_filter("blue"), Some(ColorFilter::Blue)));
    assert!(parse_filter("Sepia").is_none());
    assert!(parse_filter("").is_none());
    assert!(parse_filter("reds").is_none());
    assert!(parse_filter("re").is_none());
}

#[test]
fn colour_filters() {
    let before = picture(6, 5, 13);
    for name in ["sepia", "grayscale", "invert", "red", "green", "blue", "none"] {
        let mut data = before.clone();
        apply_color_filter(&mut data, 6, 5, name);
        let mut i = 0;
        while i < before.len() {
            let r = before[i] as f32;
            let g = before[i + 1] as f32;
            let b = before[i + 2] as f32;
            let want: [u8; 3] = match name {
                "sepia" => [
                    (r * 0.393 + g * 0.769 + b * 0.189).min(255.0) as u8,
                    (r * 0.349 + g * 0.686 + b * 0.168).min(255.0) as u8,
                    (r * 0.272 + g * 0.534 + b * 0.131).min(255.0) as u8,
                ],
                "grayscale" => {
                    let gray = (0.299 * r + 0.587 * g + 0.114 * b) as u8;
                    [gray, gray, gray]
                }
                "invert" => [255 - before[i], 255 - before[i + 1], 255 - before[i + 2]],
                "red" => [before[i], 0, 0],
                "green" => [0, before[i + 1], 0],
                "blue" => [0, 0, before[i + 2]],
                _ => [before[i], before[i + 1], before[i + 2]],
            };
            assert_eq!(&data[i..i + 3], &want, "{} at {}", name, i);
            assert_eq!(data[i + 3], before[i + 3]);
            i += 4;
        }
    }
    assert_eq!(filter_pixel(ColorFilter::Invert, 0, 255, 100), (255, 0, 155));
    assert_eq!(filter_pixel(ColorFilter::Sepia, 255, 255, 255), (255, 255, 238));
    assert_eq!(filter_pixel(ColorFilter::Grayscale, 255, 255, 255).0, 255);
}

fn sharpened(before: &[u8], width: u32, height: u32, strength: f32) -> Vec<u8> {
    let mut temp = vec![0u8; before.len()];
    let kernel = [
        0.0, -strength, 0.0, -strength, 1.0 + 4.0 * strength, -strength, 0.0, -strength, 0.0,
    ];
    if width < 3 || height < 3 {
        return temp;
    }
    for y in 1..(height - 1) {
        for x in 1..(width - 1) {
            for c in 0..3 {
                let mut sum = 0.0f32;
                for ky in 0..3 {
                    for kx in 0..3 {
                        let px = x + kx - 1;
                        let py = y + ky - 1;
                        let idx = ((py * width + px) * 4 + c) as usize;
                        sum += before[idx] as f32 * kernel[(ky * 3 + kx) as usize];
                    }
                }
                temp[((y * width + x) * 4 + c) as usize] = sum.max(0.0).min(255.0) as u8;
            }
            let idx = ((y * width + x) * 4 + 3) as usize;
            temp[idx] = before[idx];
        }
    }
    temp
}

#[test]
fn sharpening() {
    for (width, height) in [(5u32, 4u32), (3, 3), (2, 5), (1, 1), (7, 3), (0, 0), (4, 0)] {
        for strength in [0.5f32, 1.0, 2.75, f32::NAN] {
            let before = picture(width, height, 14);
            let mut data = before.clone();
            apply_sharpen(&mut data, width, height, s(strength));
            assert_eq!(data, sharpened(&before, width, height, strength));
        }
        for strength in [0.0f32, -0.0, -1.0] {
            let before = picture(width, height, 15);
            let mut data = before.clone();
            apply_sharpen(&mut data, width, height, s(strength));
            assert_eq!(data, before);
        }
    }
}

fn edges(before: &[u8], width: u32, height: u32) -> Vec<u8> {
    let mut temp = vec![0u8; before.len()];
    let sobel_x = [-1i32, 0, 1, -2, 0, 2, -1, 0, 1];
    let sobel_y = [-1i32, -2, -1, 0, 0, 0, 1, 2, 1];
    if width < 3 || height < 3 {
        return temp;
    }
    for y in 1..(height - 1) {
        for x in 1..(width - 1) {
            let mut gx = 0i32;
            let mut gy = 0i32;
            for ky in 0..3 {
                for kx in 0..3 {
                    let px = x + kx - 1;
                    let py = y + ky - 1;
                    let idx = ((py * width + px) * 4) as usize;
                    let gray = (0.299 * before[idx] as f32
                        + 0.587 * before[idx + 1] as f32
                        + 0.114 * before[idx + 2] as f32) as i32;
                    gx += gray * sobel_x[(ky * 3 + kx) as usize];
                    gy += gray * sobel_y[(ky * 3 + kx) as usize];
                }
            }
            let magnitude = ((gx * gx + gy * gy) as f32).sqrt().min(255.0) as u8;
            let idx = ((y * width + x) * 4) as usize;
            temp[idx] = magnitude;
            temp[idx + 1] = magnitude;
            temp[idx + 2] = magnitude;
            temp[idx + 3] = before[idx + 3];
        }
    }
    temp
}

#[test]
fn edge_detection() {
    for (width, height) in [(6u32, 5u32), (3, 3), (2, 2), (1, 9), (9, 3), (0, 0)] {
        let before = picture(width, height, 16);
        let mut data = before.clone();
        apply_edge_detection(&mut data, width, height);
        assert_eq!(data, edges(&before, width, height));
    }
    // A flat image has no edges; soft steps have weak ones.
    let mut flat = vec![90u8; 5 * 5 * 4];
    apply_edge_detection(&mut flat, 5, 5);
    assert_eq!(flat[(2 * 5 + 2) * 4], 0);
    assert_eq!(flat[(2 * 5 + 2) * 4 + 3], 90);
    assert_eq!(flat[0], 0);
    let mut soft: Vec<u8> = (0..5 * 5 * 4).map(|k| 100 + (((k / 4) % 5) as u8) * 3).collect();
    let before = soft.clone();
    apply_edge_detection(&mut soft, 5, 5);
    assert_eq!(soft, edges(&before, 5, 5));
    assert!(soft[(2 * 5 + 2) * 4] > 0 && soft[(2 * 5 + 2) * 4] < 255);
}

fn blurred(before: &[u8], width: u32, height: u32, kernel: &[f32]) -> Vec<u8> {
    let size = kernel.len() as i32;
    let half = size / 2;
    let mut temp = vec![0u8; before.len()];
    let mut out = vec![0u8; before.len()];
    for y in 0..height {
        for x in 0..width {
            for c in 0..4 {
                let mut sum = 0.0f32;
                for k in 0..size {
                    let sx = (x as i32 + k - half).max(0).min(width as i32 - 1) as u32;
                    sum += before[((y * width + sx) * 4 + c) as usize] as f32 * kernel[k as usize];
                }
                temp[((y * width + x) * 4 + c) as usize] = sum.round() as u8;
            }
        }
    }
    for y in 0..height {
        for x in 0..width {
            for c in 0..4 {
                let mut sum = 0.0f32;
                for k in 0..size {
                    let sy = (y as i32 + k - half).max(0).min(height as i32 - 1) as u32;
                    sum += temp[((sy * width + x) * 4 + c) as usize] as f32 * kernel[k as usize];
                }
                out[((y * width + x) * 4 + c) as usize] = sum.round() as u8;
            }
        }
    }
    out
}

fn gaussian(radius: f32) -> Vec<f32> {
    let sigma = radius / 3.0;
    let size = (radius * 2.0).ceil() as i32 + 1;
    let half = size / 2;
    let mut kernel: Vec<f32> = Vec::new();
    let mut sum = 0.0f32;
    for i in 0..size {
        let x = (i - half) as f32;
        let value = (-x * x / (2.0 * sigma * sigma)).exp();
        kernel.push(value);
        sum += value;
    }
    for value in kernel.iter_mut() {
        *value /= sum;
    }
    kernel
}

#[test]
fn blurring() {
    for (width, height) in [(6u32, 5u32), (1, 1), (2, 7), (9, 1), (0, 0)] {
        for radius in [0.5f32, 1.0, 2.0, 3.3] {
            let kernel = gaussian(radius);
            let weights: Vec<Single> = kernel.iter().map(|&w| s(w)).collect();
            let before = picture(width, height, 17);
            let mut data = before.clone();
            apply_blur(&mut data, width, height, &weights);
            assert_eq!(data, blurred(&before, width, height, &kernel));
        }
    }
    // The kernel of one weight 1 changes nothing; an empty kernel clears.
    let before = picture(3, 3, 18);
    let mut data = before.clone();
    apply_blur(&mut data, 3, 3, &[s(1.0)]);
    assert_eq!(data, before);
    apply_blur(&mut data, 3, 3, &[]);
    assert_eq!(data, vec![0u8; 36]);
}

#[test]
fn a_blur_needs_a_positive_radius_and_an_image() {
    assert!(blur_applies(24, 3, 2, s(1.0)));
    assert!(blur_applies(24, 3, 2, s(1.0e-40)));
    assert!(blur_applies(24, 3, 2, s(f32::INFINITY)));
    assert!(blur_applies(0, 0, 5, s(2.0)));
    assert!(!blur_applies(24, 3, 2, s(0.0)));
    assert!(!blur_applies(24, 3, 2, s(-0.0)));
    assert!(!blur_applies(24, 3, 2, s(-1.0)));
    assert!(!blur_applies(23, 3, 2, s(1.0)));
    assert!(!blur_applies(24, 2, 2, s(1.0)));
    // A radius that is not a number is not at most zero: the blur applies.
    assert!(blur_applies(24, 3, 2, s(f32::NAN)));
    for radius in [1.0f32, 0.0, -0.0, -2.0, f32::NAN] {
        for len in [23usize, 24] {
            assert_eq!(
                blur_applies(len, 3, 2, s(radius)),
                !(radius <= 0.0 || len != 24)
            );
        }
    }
}

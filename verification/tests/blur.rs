use asv_tools::blur::{apply_box_blur, apply_box_blur_into};
use asv_tools::image::MonoImage;

fn image(width: u32, height: u32, stride: usize, pixels: Vec<u8>) -> MonoImage {
    MonoImage::from_raw(width, height, stride, pixels).unwrap()
}

/// Direct computation of the blur: each pass sums the clamped window, the sums are divided by
/// the box area after each iteration.
fn reference_blur(src: &[u32], w: usize, h: usize, r: i64, iterations: usize) -> Vec<u32> {
    let clamp = |v: i64, len: usize| -> usize { v.max(0).min(len as i64 - 1) as usize };
    let mut cur = src.to_vec();
    for _ in 0..iterations {
        let mut hs = vec![0u32; w * h];
        for y in 0..h {
            for x in 0..w {
                let mut s = 0;
                for j in -r..=r {
                    s += cur[y * w + clamp(x as i64 + j, w)];
                }
                hs[y * w + x] = s;
            }
        }
        let mut vs = vec![0u32; w * h];
        for y in 0..h {
            for x in 0..w {
                let mut s = 0;
                for j in -r..=r {
                    s += hs[clamp(y as i64 + j, h) * w + x];
                }
                vs[y * w + x] = s / ((2 * r as u32 + 1) * (2 * r as u32 + 1));
            }
        }
        cur = vs;
    }
    cur
}

#[test]
fn blur_of_a_short_line() {
    let img = image(3, 1, 3, vec![0, 30, 60]);
    let blurred = apply_box_blur(&img, 1, 1);
    assert_eq!(blurred.pixels, vec![10, 30, 50]);
    assert_eq!(blurred.width, 3);
    assert_eq!(blurred.height, 1);
}

#[test]
fn blur_keeps_a_uniform_image() {
    let img = image(7, 5, 9, vec![77u8; 45]);
    let blurred = apply_box_blur(&img, 3, 3);
    assert!(blurred.pixels.iter().all(|&v| v == 77));
}

#[test]
fn blur_matches_direct_computation() {
    let w = 9usize;
    let h = 6usize;
    let stride = 11usize;
    let mut pixels = vec![0u8; stride * h];
    for y in 0..h {
        for x in 0..stride {
            pixels[y * stride + x] = ((x * 37 + y * 91 + x * y * 5) % 256) as u8;
        }
    }
    let img = image(w as u32, h as u32, stride, pixels.clone());
    for (radius, iterations) in [(1u32, 1usize), (2, 3), (3, 3), (5, 2)] {
        let blurred = apply_box_blur(&img, radius, iterations);
        let mut compact = vec![0u32; w * h];
        for y in 0..h {
            for x in 0..w {
                compact[y * w + x] = pixels[y * stride + x] as u32;
            }
        }
        let expected = reference_blur(&compact, w, h, radius as i64, iterations);
        let got: Vec<u32> = blurred.pixels.iter().map(|&v| v as u32).collect();
        assert_eq!(got, expected, "radius {} iterations {}", radius, iterations);
    }
}

#[test]
fn blur_into_reads_the_fragment_and_leaves_the_rest() {
    let w = 10usize;
    let h = 8usize;
    let mut pixels = vec![0u8; w * h];
    for y in 0..h {
        for x in 0..w {
            pixels[y * w + x] = (x * 20 + y) as u8;
        }
    }
    let img = image(w as u32, h as u32, w, pixels.clone());
    // destination with padded lines: only the first width*height bytes are written
    let mut dest = image(4, 3, 6, vec![200u8; 18]);
    apply_box_blur_into(&img, [2, 3], 2, 2, &mut dest);
    let mut fragment = vec![0u32; 12];
    for y in 0..3 {
        for x in 0..4 {
            fragment[y * 4 + x] = pixels[(y + 3) * w + x + 2] as u32;
        }
    }
    let expected = reference_blur(&fragment, 4, 3, 2, 2);
    let got: Vec<u32> = dest.pixels[..12].iter().map(|&v| v as u32).collect();
    assert_eq!(got, expected);
    assert!(dest.pixels[12..].iter().all(|&v| v == 200));
    assert_eq!(dest.bytes_per_line, 6);
}

#[test]
fn blur_into_empty_destination_changes_nothing() {
    let img = image(4, 4, 4, vec![9u8; 16]);
    let mut dest = image(0, 3, 2, vec![1u8; 6]);
    apply_box_blur_into(&img, [0, 0], 5000, 1, &mut dest);
    assert_eq!(dest.pixels, vec![1u8; 6]);
}

#[test]
fn blur_stays_within_input_range() {
    let pixels: Vec<u8> = (0..64).map(|i| 100 + (i * 7 % 50) as u8).collect();
    let img = image(8, 8, 8, pixels);
    let blurred = apply_box_blur(&img, 2, 4);
    assert!(blurred.pixels.iter().all(|&v| (100..150).contains(&v)));
}

fn varied_image(w: u32, h: u32, stride: usize, seed: usize) -> MonoImage {
    let mut pixels = vec![0u8; stride * h as usize];
    for (i, p) in pixels.iter_mut().enumerate() {
        *p = ((i * 37 + seed * 11 + (i / stride) * 5) % 200) as u8;
    }
    image(w, h, stride, pixels)
}

#[test]
fn blur_iterations_compose() {
    let img = varied_image(9, 7, 12, 3);
    let twice = apply_box_blur(&img, 1, 2);
    let then_three = apply_box_blur(&twice, 1, 3);
    let five = apply_box_blur(&img, 1, 5);
    assert_eq!(then_three.pixels, five.pixels);
}

#[test]
fn blur_keeps_pointwise_order() {
    let darker = varied_image(8, 6, 8, 1);
    let mut pixels = darker.pixels.clone();
    for (i, p) in pixels.iter_mut().enumerate() {
        *p += (i % 7) as u8 * 5;
    }
    let brighter = image(8, 6, 8, pixels);
    let a = apply_box_blur(&darker, 2, 2);
    let b = apply_box_blur(&brighter, 2, 2);
    assert!(a.pixels.iter().zip(&b.pixels).all(|(x, y)| x <= y));
    assert!(a.pixels != b.pixels);
}

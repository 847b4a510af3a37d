use asv_tools::blk_matching::{
    calc_sum_abs_diff, determine_translation_by_block_matching, determine_translation_with_subpixel,
    BlockMatchError, BlockSearch, TranslationError,
};
use asv_tools::image::MonoImage;
use asv_tools::powers::{IntPowerOf2, NonNegPowerOf2};

fn pattern_image(w: usize, h: usize) -> MonoImage {
    let mut pixels = vec![0u8; w * h];
    for y in 0..h {
        for x in 0..w {
            pixels[y * w + x] = ((x * x * 7 + y * 31 + x * y * 3) % 251) as u8;
        }
    }
    MonoImage::from_raw(w as u32, h as u32, w, pixels).unwrap()
}

fn fragment(img: &MonoImage, x: usize, y: usize, w: usize, h: usize) -> MonoImage {
    let mut pixels = vec![0u8; w * h];
    for yy in 0..h {
        for xx in 0..w {
            pixels[yy * w + xx] = img.pixels[(y + yy) * img.bytes_per_line + x + xx];
        }
    }
    MonoImage::from_raw(w as u32, h as u32, w, pixels).unwrap()
}

#[test]
fn sad_of_exact_fragment_is_zero() {
    let img = pattern_image(16, 12);
    let blk = fragment(&img, 5, 4, 4, 3);
    assert_eq!(calc_sum_abs_diff(&img, &blk, (5, 4)), Ok(0));
}

#[test]
fn sad_value_by_hand() {
    let img = MonoImage::from_raw(3, 2, 4, vec![10, 20, 30, 99, 40, 50, 60, 99]).unwrap();
    let blk = MonoImage::from_raw(2, 2, 2, vec![15, 15, 60, 45]).unwrap();
    // at (1, 0): |20-15| + |30-15| + |50-60| + |60-45| = 5 + 15 + 10 + 15
    assert_eq!(calc_sum_abs_diff(&img, &blk, (1, 0)), Ok(45));
    // at (0, 0): |10-15| + |20-15| + |40-60| + |50-45| = 5 + 5 + 20 + 5
    assert_eq!(calc_sum_abs_diff(&img, &blk, (0, 0)), Ok(35));
}

#[test]
fn sad_outside_image_is_an_error() {
    let img = pattern_image(8, 8);
    let blk = fragment(&img, 0, 0, 3, 3);
    let err = BlockMatchError::RefBlockOutside {
        block_width: 3,
        block_height: 3,
        x: 6,
        y: 0,
        image_width: 8,
        image_height: 8,
    };
    assert_eq!(calc_sum_abs_diff(&img, &blk, (6, 0)), Err(err));
    assert!(calc_sum_abs_diff(&img, &blk, (-1, 0)).is_err());
    assert!(calc_sum_abs_diff(&img, &blk, (5, 5)).is_ok());
}

fn blob_image(w: usize, h: usize, cx: i64, cy: i64) -> MonoImage {
    let mut pixels = vec![0u8; w * h];
    for y in 0..h {
        for x in 0..w {
            let d = (x as i64 - cx).pow(2) + (y as i64 - cy).pow(2);
            pixels[y * w + x] = (250 - 6 * d).max(0) as u8;
        }
    }
    MonoImage::from_raw(w as u32, h as u32, w, pixels).unwrap()
}

#[test]
fn block_matching_finds_the_shift() {
    let img = blob_image(24, 20, 11, 9);
    let blk = fragment(&img, 9, 7, 5, 4);
    let t = determine_translation_by_block_matching(
        &img,
        &blk,
        (8, 8),
        4,
        NonNegPowerOf2::new(1),
        IntPowerOf2::new(0),
    );
    assert_eq!(t, Ok((1, -1)));
    let t = determine_translation_by_block_matching(
        &img,
        &blk,
        (6, 6),
        4,
        NonNegPowerOf2::new(0),
        IntPowerOf2::new(0),
    );
    assert_eq!(t, Ok((3, 1)));
}

#[test]
fn block_matching_with_too_large_step_does_nothing() {
    let img = pattern_image(24, 20);
    let blk = fragment(&img, 9, 7, 5, 4);
    let t = determine_translation_by_block_matching(
        &img,
        &blk,
        (8, 8),
        3,
        NonNegPowerOf2::new(2),
        IntPowerOf2::new(0),
    );
    assert_eq!(t, Ok((0, 0)));
}

#[test]
fn block_matching_reports_first_position_outside() {
    let img = pattern_image(12, 12);
    let blk = fragment(&img, 2, 2, 4, 4);
    let t = determine_translation_by_block_matching(
        &img,
        &blk,
        (1, 2),
        2,
        NonNegPowerOf2::new(0),
        IntPowerOf2::new(0),
    );
    assert_eq!(
        t,
        Err(BlockMatchError::RefBlockOutside {
            block_width: 4,
            block_height: 4,
            x: -1,
            y: 0,
            image_width: 12,
            image_height: 12,
        })
    );
}

/// Drives a search with sums from `sad`, recording the positions queried.
fn drive(search: &mut BlockSearch, sad: impl Fn(i64, i64) -> u64) -> Vec<(i64, i64)> {
    let mut queried = vec![];
    while let Some((x, y)) = search.query() {
        queried.push((x, y));
        search.feed(sad(x, y));
    }
    queried
}

#[test]
fn search_scans_levels_in_order() {
    let mut search = BlockSearch::new((10, 20), 2, NonNegPowerOf2::new(1), IntPowerOf2::new(0));
    assert_eq!(search.unit_shift(), 0);
    assert!(!search.is_finished());
    // minimum at (12, 19)
    let queried = drive(&mut search, |x, y| ((x - 12).abs() + (y - 19).abs()) as u64);
    // first level: step 2 around (10, 20), radius 2: 3 x 3 positions
    assert_eq!(
        &queried[..9],
        &[(8, 18), (10, 18), (12, 18), (8, 20), (10, 20), (12, 20), (8, 22), (10, 22), (12, 22)]
    );
    // best of the first level: (12, 18) and (12, 20) tie; the first one wins.
    // second level: step 1 around (12, 18), radius 2: 5 x 5 positions
    assert_eq!(queried.len(), 9 + 25);
    assert_eq!(queried[9], (10, 16));
    assert_eq!(queried[9 + 24], (14, 20));
    assert!(search.is_finished());
    assert_eq!(search.translation(), (2, -1));
}

#[test]
fn search_with_subpixel_levels_uses_fractional_units() {
    let mut search = BlockSearch::new((3, 4), 1, NonNegPowerOf2::new(0), IntPowerOf2::new(-2));
    assert_eq!(search.unit_shift(), 2);
    // units of a quarter pixel; best at 3.25, 3.75 (13, 15 units)
    let queried = drive(&mut search, |x, y| ((x - 13).abs() + (y - 15).abs()) as u64);
    assert_eq!(queried[0], (8, 12));
    // three levels: 3x3, then 5x5 with half-pixel steps, then 5x5 with quarter-pixel steps
    assert_eq!(queried.len(), 9 + 25 + 25);
    assert_eq!(search.translation(), (1, -1));
}

#[test]
fn search_keeps_center_when_all_sums_are_maximal() {
    let mut search = BlockSearch::new((0, 0), 1, NonNegPowerOf2::new(0), IntPowerOf2::new(0));
    let queried = drive(&mut search, |_, _| u64::MAX);
    assert_eq!(queried.len(), 9);
    assert_eq!(search.translation(), (0, 0));
}

#[test]
fn search_finished_from_start_when_step_exceeds_radius() {
    let search = BlockSearch::new((5, 5), 1, NonNegPowerOf2::new(1), IntPowerOf2::new(-1));
    assert!(search.is_finished());
    assert_eq!(search.query(), None);
    assert_eq!(search.translation(), (0, 0));
}

#[test]
fn no_search_admits_any_final_step() {
    let img = pattern_image(24, 20);
    let blk = fragment(&img, 9, 7, 5, 4);
    let t = determine_translation_by_block_matching(
        &img,
        &blk,
        (8, 8),
        3,
        NonNegPowerOf2::new(2),
        IntPowerOf2::new(i32::MIN),
    );
    assert_eq!(t, Ok((0, 0)));
    let t = determine_translation_with_subpixel(
        &img,
        &blk,
        (8, 8),
        3,
        NonNegPowerOf2::new(2),
        IntPowerOf2::new(i32::MIN),
        |_, _| -> Result<u64, ()> { unreachable!() },
    );
    assert_eq!(t, Ok((0, 0)));
    let search = BlockSearch::new((5, 5), 1, NonNegPowerOf2::new(1), IntPowerOf2::new(i32::MIN));
    assert!(search.is_finished());
    assert_eq!(search.unit_shift(), 0);
    assert_eq!(search.translation(), (0, 0));
}

#[test]
fn subpixel_search_refines_the_whole_pixel_result() {
    let img = blob_image(24, 20, 11, 9);
    let blk = fragment(&img, 9, 7, 5, 4);
    // whole-pixel part gives (1, -1), i.e. (9, 7): (18, 14) in half pixels;
    // the sub-pixel sums are smallest at (19, 13) half pixels
    let t = determine_translation_with_subpixel(
        &img,
        &blk,
        (8, 8),
        4,
        NonNegPowerOf2::new(1),
        IntPowerOf2::new(-1),
        |x, y| -> Result<u64, ()> { Ok(((x - 19).abs() + (y - 13).abs()) as u64) },
    );
    assert_eq!(t, Ok((3, -3)));
    let mut search = BlockSearch::refine((8, 8), (1, -1), IntPowerOf2::new(-1));
    assert_eq!(search.unit_shift(), 1);
    let queried = drive(&mut search, |x, y| ((x - 19).abs() + (y - 13).abs()) as u64);
    assert_eq!(queried[0], (16, 12));
    assert_eq!(queried.len(), 25);
    assert_eq!(search.translation(), (3, -3));
}

#[test]
fn subpixel_search_with_whole_final_step_matches_whole_pixel_search() {
    let img = blob_image(24, 20, 11, 9);
    let blk = fragment(&img, 9, 7, 5, 4);
    let t = determine_translation_with_subpixel(
        &img,
        &blk,
        (6, 6),
        4,
        NonNegPowerOf2::new(0),
        IntPowerOf2::new(0),
        |_, _| -> Result<u64, ()> { unreachable!() },
    );
    assert_eq!(t, Ok((3, 1)));
}

#[test]
fn subpixel_search_fails_at_first_whole_pixel_position_outside() {
    let img = pattern_image(12, 12);
    let blk = fragment(&img, 2, 2, 4, 4);
    let t = determine_translation_with_subpixel(
        &img,
        &blk,
        (1, 2),
        2,
        NonNegPowerOf2::new(0),
        IntPowerOf2::new(-2),
        |_, _| -> Result<u64, ()> { unreachable!() },
    );
    assert_eq!(
        t,
        Err(TranslationError::Outside(BlockMatchError::RefBlockOutside {
            block_width: 4,
            block_height: 4,
            x: -1,
            y: 0,
            image_width: 12,
            image_height: 12,
        }))
    );
}

#[test]
fn subpixel_search_passes_on_the_sum_error() {
    let img = blob_image(24, 20, 11, 9);
    let blk = fragment(&img, 9, 7, 5, 4);
    let t = determine_translation_with_subpixel(
        &img,
        &blk,
        (8, 8),
        4,
        NonNegPowerOf2::new(1),
        IntPowerOf2::new(-1),
        |x, _| if x < 17 { Ok(5) } else { Err(x) },
    );
    assert_eq!(t, Err(TranslationError::Subpixel(17)));
}

#[test]
fn subpixel_search_admits_fine_steps_near_the_origin() {
    let unit = 1i64 << 20;
    let (tx, ty) = (3 * unit + 300_000, 4 * unit - 200_000);
    let mut search = BlockSearch::new((3, 4), 1, NonNegPowerOf2::new(0), IntPowerOf2::new(-20));
    assert_eq!(search.unit_shift(), 20);
    let queried = drive(&mut search, |x, y| ((x - tx).abs() + (y - ty).abs()) as u64);
    // a 3 x 3 whole-pixel level, then 20 levels of 5 x 5
    assert_eq!(queried.len(), 9 + 20 * 25);
    assert_eq!(search.translation(), (300_000, -200_000));

    let img = blob_image(24, 20, 11, 9);
    let blk = fragment(&img, 9, 7, 5, 4);
    let (ux, uy) = (9 * unit + 123_456, 7 * unit - 654_321);
    let t = determine_translation_with_subpixel(
        &img,
        &blk,
        (8, 8),
        4,
        NonNegPowerOf2::new(1),
        IntPowerOf2::new(-20),
        |x, y| -> Result<u64, ()> { Ok(((x - ux).abs() + (y - uy).abs()) as u64) },
    );
    assert_eq!(t, Ok((unit + 123_456, -unit - 654_321)));
}

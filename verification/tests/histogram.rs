use asv_tools::histogram::{
    area_histogram, count_nonzero_bins, first_nonzero_bin, histogram_width, last_nonzero_bin,
    stretch_histogram_mono8,
};
use asv_tools::image::{MonoImage, Rect};

#[test]
fn histogram_of_an_area() {
    let img = MonoImage::from_raw(4, 3, 5, vec![1, 2, 2, 3, 9, 4, 4, 4, 5, 9, 7, 7, 1, 1, 9]).unwrap();
    let h = area_histogram(&img, &Rect { x: 1, y: 0, width: 2, height: 3 });
    assert_eq!(h.len(), 256);
    assert_eq!(h[2], 2);
    assert_eq!(h[4], 2);
    assert_eq!(h[7], 1);
    assert_eq!(h[1], 1);
    assert_eq!(h.iter().sum::<usize>(), 6);
    assert_eq!(h[9], 0);
}

#[test]
fn histogram_bins() {
    let mut h = vec![0usize; 256];
    h[3] = 5;
    h[10] = 1;
    h[200] = 7;
    assert_eq!(count_nonzero_bins(&h), 3);
    assert_eq!(first_nonzero_bin(&h), Some(3));
    assert_eq!(last_nonzero_bin(&h), Some(200));
    assert_eq!(histogram_width(&h), Some(198));
    let empty = vec![0usize; 256];
    assert_eq!(count_nonzero_bins(&empty), 0);
    assert_eq!(first_nonzero_bin(&empty), None);
    assert_eq!(histogram_width(&empty), None);
}

#[test]
fn stretch_values() {
    let mut img = MonoImage::from_raw(5, 1, 6, vec![0, 10, 50, 90, 100, 77]).unwrap();
    stretch_histogram_mono8(&mut img, 10, 90);
    // (255 * (v - 10)) / 80, capped at 255; the padding byte stays
    assert_eq!(img.pixels, vec![0, 0, 127, 255, 255, 77]);
    let mut img = MonoImage::from_raw(3, 1, 3, vec![3, 4, 5]).unwrap();
    stretch_histogram_mono8(&mut img, 2, 9);
    // 255 * 1 / 7 = 36.43, 255 * 2 / 7 = 72.86, 255 * 3 / 7 = 109.29
    assert_eq!(img.pixels, vec![36, 72, 109]);
}

use winnow_core::tone::luminance_histogram;

#[test]
fn histogram_counts_luma_with_sampling() {
    // 2x2 RGB image, rowstride padded to 8: white, black / red, gray.
    let data = [255, 255, 255, 0, 0, 0, 9, 9, 255, 0, 0, 128, 128, 128, 9, 9];
    let h = luminance_histogram(&data, 2, 2, 8, 3, 1);
    assert_eq!(h[255], 1);
    assert_eq!(h[0], 1);
    assert_eq!(h[76], 1); // 0.299 * 255
    assert_eq!(h[128], 1);
    let h = luminance_histogram(&data, 2, 2, 8, 3, 2);
    assert_eq!(h.iter().sum::<u64>(), 1);
}

#[test]
fn histogram_sums_to_sampled_pixels() {
    // 5x3 RGBA image; step 2 samples rows 0, 2 and pixels 0, 2, 4.
    let data: Vec<u8> = (0..5 * 3 * 4).map(|i| (i * 37 % 256) as u8).collect();
    let h = luminance_histogram(&data, 5, 3, 20, 4, 2);
    assert_eq!(h.iter().sum::<u64>(), 6);
    let h = luminance_histogram(&data, 5, 3, 20, 4, 0);
    assert_eq!(h.iter().sum::<u64>(), 15);
    let px = &data[44..47];
    let l = (299 * px[0] as u32 + 587 * px[1] as u32 + 114 * px[2] as u32 + 500) / 1000;
    assert!(h[l as usize] >= 1);
}

#[test]
fn empty_image_has_empty_histogram() {
    let h = luminance_histogram(&[], 0, 0, 0, 0, 1);
    assert_eq!(h.iter().sum::<u64>(), 0);
}

use code_for_next_week_in_rust::gpu::ppm::ppm_pixels;

#[test]
fn ppm_lists_rows_from_the_top() {
    // two columns, two rows; the bytes hold the bottom row first
    let rgb: Vec<u8> = vec![1, 2, 3, 4, 5, 6, 7, 8, 9, 10, 11, 12];
    let px = ppm_pixels(2, 2, &rgb);
    assert_eq!(px, vec![(7, 8, 9), (10, 11, 12), (1, 2, 3), (4, 5, 6)]);
}

#[test]
fn ppm_of_an_empty_image_is_empty() {
    assert!(ppm_pixels(0, 5, &vec![]).is_empty());
    assert!(ppm_pixels(3, 0, &vec![1, 2, 3]).is_empty());
}

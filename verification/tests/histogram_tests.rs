use median_cut::ColorHistogram;

#[test]
fn histogram_counts_runs_of_equal_colors() {
    let pixels: Vec<u32> = vec![0xFF0000, 0x0000FF, 0xFF0000, 0x00FF00, 0xFF0000];
    let h = ColorHistogram::new_pixels(&pixels);
    assert_eq!(h.color_array, vec![0x0000FF, 0x00FF00, 0xFF0000]);
    assert_eq!(h.count_array, vec![1, 1, 3]);
}

#[test]
fn histogram_strips_the_alpha_byte() {
    let pixels: Vec<u32> = vec![0xAA00FF00, 0x1200FF00, 0x0000FF00];
    let h = ColorHistogram::new_pixels(&pixels);
    assert_eq!(h.color_array, vec![0x00FF00]);
    assert_eq!(h.count_array, vec![3]);
}

#[test]
fn histogram_of_empty_input_is_empty() {
    let pixels: Vec<u32> = vec![];
    let h = ColorHistogram::new_pixels(&pixels);
    assert_eq!(h.color_array.len(), 0);
    assert_eq!(h.count_array.len(), 0);
}

#[test]
fn histogram_counts_sum_to_the_pixel_count() {
    let pixels: Vec<u32> = vec![1, 2, 2, 3, 3, 3, 7, 7, 1, 1];
    let h = ColorHistogram::new_pixels(&pixels);
    let total: usize = h.count_array.iter().sum();
    assert_eq!(total, pixels.len());
    for w in h.color_array.windows(2) {
        assert!(w[0] < w[1]);
    }
}

#[test]
fn histogram_new_wraps_the_arrays() {
    let h = ColorHistogram::new(vec![5, 9], vec![2, 4]);
    assert_eq!(h.color_array, vec![5, 9]);
    assert_eq!(h.count_array, vec![2, 4]);
}

use median_cut::MMCQ;

#[test]
fn four_pixels_reduced_to_two_colors() {
    let pixels: Vec<u32> = vec![0xFF0000, 0xFF0000, 0x00FF00, 0x0000FF];
    let m = MMCQ::from_pixels_u32_rgba(&pixels, 2);
    let p = m.get_quantized_colors();
    assert_eq!(p.len(), 2);
    // the dominant entry is pure red with two pixels
    assert_eq!((p[0].red, p[0].grn, p[0].blu), (255, 0, 0));
    assert_eq!(p[0].cnt, 2);
    assert_eq!(p[0].rgb, 0xFF0000);
    // the second entry averages green and blue, rounding half up
    assert_eq!((p[1].red, p[1].grn, p[1].blu), (0, 128, 128));
    assert_eq!(p[1].cnt, 2);
    assert_eq!(p[1].rgb, 0x008080);
}

#[test]
fn three_distinct_colors_fit_in_five() {
    let pixels: Vec<u32> = vec![0x0000FF, 0x00FF00, 0x00FF00, 0xFF0000, 0xFF0000, 0xFF0000];
    let m = MMCQ::from_pixels_u32_rgba(&pixels, 5);
    let p = m.get_quantized_colors();
    assert_eq!(p.len(), 3);
    // unmodified histogram entries, sorted by descending count
    assert_eq!((p[0].rgb, p[0].cnt), (0xFF0000, 3));
    assert_eq!((p[1].rgb, p[1].cnt), (0x00FF00, 2));
    assert_eq!((p[2].rgb, p[2].cnt), (0x0000FF, 1));
}

#[test]
fn empty_input_gives_empty_palette_and_output() {
    let pixels: Vec<u32> = vec![];
    let mut m = MMCQ::from_pixels_u32_rgba(&pixels, 7);
    assert_eq!(m.get_quantized_colors().len(), 0);
    let out = m.quantize_image(&pixels);
    assert_eq!(out.len(), 0);
}

#[test]
fn zero_max_colors_gives_empty_palette() {
    let pixels: Vec<u32> = vec![0x123456, 0x654321];
    let m = MMCQ::from_pixels_u32_rgba(&pixels, 0);
    assert_eq!(m.get_quantized_colors().len(), 0);
}

#[test]
fn alpha_byte_is_ignored() {
    let pixels: Vec<u32> = vec![0xFF123456, 0x00123456, 0x80123456];
    let m = MMCQ::from_pixels_u32_rgba(&pixels, 4);
    let p = m.get_quantized_colors();
    assert_eq!(p.len(), 1);
    assert_eq!((p[0].rgb, p[0].cnt), (0x123456, 3));
}

#[test]
fn equal_counts_keep_ascending_color_order() {
    let pixels: Vec<u32> = vec![0xFF0000, 0x00FF00];
    let m = MMCQ::from_pixels_u32_rgba(&pixels, 8);
    let p = m.get_quantized_colors();
    assert_eq!(p.len(), 2);
    assert_eq!(p[0].rgb, 0x00FF00);
    assert_eq!(p[1].rgb, 0xFF0000);
}

#[test]
fn quantize_maps_each_pixel_to_nearest_entry() {
    // palette: black (two pixels) and white (one pixel)
    let source: Vec<u32> = vec![0x000000, 0x000000, 0xFFFFFF];
    let mut m = MMCQ::from_pixels_u32_rgba(&source, 5);
    let image: Vec<u32> = vec![0x202020, 0xF0F0F0, 0x000000];
    let out = m.quantize_image(&image);
    assert_eq!(out, vec![0x000000, 0xFFFFFF, 0x000000]);
}

#[test]
fn distance_ties_pick_the_first_entry() {
    // palette sorted by count descending, ties ascending by color:
    // black before gray
    let source: Vec<u32> = vec![0x000000, 0x0A0A0A];
    let mut m = MMCQ::from_pixels_u32_rgba(&source, 4);
    let p = m.get_quantized_colors();
    assert_eq!(p[0].rgb, 0x000000);
    assert_eq!(p[1].rgb, 0x0A0A0A);
    // 0x050505 is equidistant from both entries: the first one wins
    let out = m.quantize_image(&vec![0x050505]);
    assert_eq!(out, vec![0x000000]);
}

#[test]
fn quantizing_twice_changes_nothing() {
    let source: Vec<u32> = vec![0xFF0000, 0xFF0000, 0x00FF00, 0x0000FF, 0x804020, 0x123456];
    let mut m = MMCQ::from_pixels_u32_rgba(&source, 3);
    let once = m.quantize_image(&source);
    let twice = m.quantize_image(&once);
    assert_eq!(once, twice);
}

#[test]
fn palette_counts_partition_the_pixels() {
    // sixteen distinct colors reduced to four boxes: the averaged counts
    // cover every pixel exactly once
    let mut pixels: Vec<u32> = Vec::new();
    for i in 0..16u32 {
        pixels.push((i * 0x111111) & 0xFFFFFF);
    }
    let mut m = MMCQ::from_pixels_u32_rgba(&pixels, 4);
    let p = m.get_quantized_colors().clone();
    assert_eq!(p.len(), 4);
    let total: usize = p.iter().map(|n| n.cnt).sum();
    assert_eq!(total, 16);
    // counts are sorted in descending order
    for w in p.windows(2) {
        assert!(w[0].cnt >= w[1].cnt);
    }
    // every remapped pixel carries a palette color
    let out = m.quantize_image(&pixels);
    assert_eq!(out.len(), pixels.len());
    let palette_colors: Vec<u32> = p.iter().map(|n| n.rgb).collect();
    for v in out {
        assert!(palette_colors.contains(&v));
    }
}

#[test]
fn byte_buffer_is_decoded_as_rgba() {
    // two pixels: red and green, each with an alpha byte that is dropped
    let bytes: Vec<u8> = vec![255, 0, 0, 255, 0, 255, 0, 7];
    let m = MMCQ::from_pixels_u8_rgba(&bytes, 4).unwrap();
    let p = m.get_quantized_colors();
    assert_eq!(p.len(), 2);
    assert_eq!(p[0].rgb, 0x00FF00);
    assert_eq!(p[1].rgb, 0xFF0000);
    assert_eq!((p[1].red, p[1].grn, p[1].blu), (255, 0, 0));
}

#[test]
fn byte_buffer_of_bad_length_is_rejected() {
    let bytes: Vec<u8> = vec![255, 0, 0];
    assert!(MMCQ::from_pixels_u8_rgba(&bytes, 4).is_none());
    let bytes2: Vec<u8> = vec![1, 2, 3, 4, 5];
    assert!(MMCQ::from_pixels_u8_rgba(&bytes2, 4).is_none());
}

#[test]
fn palette_never_exceeds_the_requested_size() {
    let mut pixels: Vec<u32> = Vec::new();
    for i in 0..64u32 {
        pixels.push(i * 0x030507);
    }
    for k in 1..8u32 {
        let m = MMCQ::from_pixels_u32_rgba(&pixels, k);
        assert!(m.get_quantized_colors().len() <= k as usize);
    }
}

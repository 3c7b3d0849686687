use geometry_core::frame::{
    checked_frame_pixels, compose_overlay, grayscale, rgba_to_luma, sobel_edges, FrameProcessor,
};

#[test]
fn luma_of_white_is_near_255_and_black_is_0() {
    assert_eq!(rgba_to_luma(0, 0, 0), 0);
    assert!(rgba_to_luma(255, 255, 255) >= 254);
}

#[test]
fn grayscale_converts_known_pixels() {
    // One red, one green pixel.
    let rgba = [255, 0, 0, 255, 0, 255, 0, 255];
    let mut gray = [0u8; 2];
    grayscale(&rgba, &mut gray);
    assert_eq!(gray[0], (77 * 255 >> 8) as u8);
    assert_eq!(gray[1], (150 * 255 >> 8) as u8);
}

#[test]
fn sobel_fires_on_a_vertical_step_edge_only() {
    // 8x5 luma plane: left half black, right half white.
    let (w, h) = (8usize, 5usize);
    let mut gray = vec![0u8; w * h];
    for y in 0..h {
        for x in 4..w {
            gray[y * w + x] = 255;
        }
    }
    let mut edges = vec![0u8; w * h];
    sobel_edges(&gray, &mut edges, w, h);
    let mid = 2 * w; // an interior row
    assert_eq!(edges[mid + 1], 0, "flat black region must be edge-free");
    assert_eq!(edges[mid + 6], 0, "flat white region must be edge-free");
    assert_eq!(edges[mid + 3], 255, "step edge must saturate");
    assert_eq!(edges[mid + 4], 255, "step edge must saturate");
    // Borders are always zero.
    assert!(edges[..w].iter().all(|&e| e == 0));
}

#[test]
fn sobel_handles_degenerate_sizes() {
    let gray = [10u8, 20, 30, 40];
    let mut edges = [1u8; 4];
    sobel_edges(&gray, &mut edges, 2, 2);
    assert_eq!(edges, [0; 4]);
}

#[test]
fn frame_dimensions_are_validated() {
    assert_eq!(checked_frame_pixels(8, 5), Some(40));
    assert_eq!(checked_frame_pixels(0, 5), None);
    assert_eq!(checked_frame_pixels(8, 0), None);
    // w * h * 4 must not overflow usize.
    assert_eq!(checked_frame_pixels(u32::MAX, u32::MAX), None);
}

#[test]
fn frame_processor_round_trips_a_frame() {
    let mut fp = FrameProcessor::new(8, 5).expect("valid dimensions");
    assert_eq!(fp.frame_len(), 8 * 5 * 4);
    // Fill input: left half black, right half white.
    for y in 0..5 {
        for x in 0..8 {
            let v = if x >= 4 { 255 } else { 0 };
            let i = (y * 8 + x) * 4;
            fp.input_mut()[i..i + 3].fill(v);
            fp.input_mut()[i + 3] = 255;
        }
    }
    fp.process();
    // Interior step-edge pixel is tinted green; flat pixel stays gray.
    let edge_px = &fp.output()[(2 * 8 + 3) * 4..(2 * 8 + 3) * 4 + 4];
    assert_eq!(edge_px, &[0, 255, 96, 255]);
    let flat_px = &fp.output()[(2 * 8 + 1) * 4..(2 * 8 + 1) * 4 + 4];
    assert_eq!(flat_px, &[0, 0, 0, 255]);
}

#[test]
fn frame_processor_refuses_empty_frames() {
    assert_eq!(FrameProcessor::new(0, 5).err(), Some("invalid frame dimensions"));
    assert_eq!(FrameProcessor::new(u32::MAX, u32::MAX).err(), Some("invalid frame dimensions"));
}

#[test]
fn luma_weights_are_exact() {
    assert_eq!(rgba_to_luma(200, 100, 50), ((77 * 200 + 150 * 100 + 29 * 50) / 256) as u8);
    assert_eq!(rgba_to_luma(255, 255, 255), 255);
}

#[test]
fn sobel_magnitude_is_the_sum_of_both_axes() {
    // A lone bright pixel: its corner neighbour sees it on both axes.
    let mut gray = vec![0u8; 25];
    gray[12] = 20;
    let mut edges = vec![9u8; 25];
    sobel_edges(&gray, &mut edges, 5, 5);
    assert_eq!(edges[6], 40);
    assert_eq!(edges[7], 40);
    assert_eq!(edges[12], 0);
    assert_eq!(edges[0], 0);
}

#[test]
fn overlay_tints_from_the_threshold_on() {
    let mut out = [7u8; 8];
    compose_overlay(&[50, 60], &[95, 96], &mut out);
    assert_eq!(out, [50, 50, 50, 255, 0, 255, 96, 255]);
}

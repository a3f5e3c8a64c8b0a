use pixel_tensor::error::PixelError;
use pixel_tensor::postprocess::{clamp255, postprocess_to_rgba};
use pixel_tensor::preprocess::preprocess_rgba_to_nchw;

/// The pointwise byte-to-float normalisation that sits between the verified
/// byte transforms and an inference engine.
fn normalize(b: u8, range_m1to1: bool) -> f32 {
    if range_m1to1 {
        b as f32 / 127.5 - 1.0
    } else {
        b as f32 / 255.0
    }
}

/// The pointwise float-to-integer denormalisation feeding `postprocess_to_rgba`:
/// truncation toward zero, saturating, as a float-to-int cast does.
fn denormalize_trunc(v: f32, range_m1to1: bool) -> i64 {
    let d = if range_m1to1 { (v + 1.0) * 127.5 } else { v * 255.0 };
    d as i64
}

#[test]
fn preprocess_two_by_two_no_resize() {
    let rgba: Vec<u8> = vec![
        255, 0, 0, 255, //
        0, 255, 0, 255, //
        0, 0, 255, 255, //
        0, 0, 0, 255,
    ];
    let out = preprocess_rgba_to_nchw(&rgba, 2, 2, 0).unwrap();
    assert_eq!(out.width, 2);
    assert_eq!(out.height, 2);
    assert_eq!(
        out.data,
        vec![
            255, 0, 0, 0, // red plane
            0, 255, 0, 0, // green plane
            0, 0, 255, 0, // blue plane
        ]
    );
    let tensor: Vec<f32> = out.data.iter().map(|&b| normalize(b, false)).collect();
    assert_eq!(
        tensor,
        vec![1.0, 0.0, 0.0, 0.0, 0.0, 1.0, 0.0, 0.0, 0.0, 0.0, 1.0, 0.0]
    );
}

#[test]
fn preprocess_within_bound_keeps_pixels() {
    // max_side larger than both sides: the no-resize path, source channels kept
    let rgba: Vec<u8> = vec![10, 20, 30, 40, 50, 60, 70, 80];
    let out = preprocess_rgba_to_nchw(&rgba, 2, 1, 5).unwrap();
    assert_eq!((out.width, out.height), (2, 1));
    assert_eq!(out.data, vec![10, 50, 20, 60, 30, 70]);
}

#[test]
fn preprocess_resizes_by_nearest_neighbour() {
    // 4x4 down to 2x2: destination (x, y) samples source (2x, 2y)
    let mut rgba: Vec<u8> = Vec::new();
    for i in 0..16u8 {
        rgba.extend_from_slice(&[i, 100 + i, 200 + i, 7]);
    }
    let out = preprocess_rgba_to_nchw(&rgba, 4, 4, 2).unwrap();
    assert_eq!((out.width, out.height), (2, 2));
    assert_eq!(
        out.data,
        vec![
            0, 2, 8, 10, // red plane: sampled pixels 0, 2, 8, 10
            100, 102, 108, 110, // green plane
            200, 202, 208, 210, // blue plane
        ]
    );
}

#[test]
fn preprocess_shrinks_wide_image() {
    let rgba: Vec<u8> = vec![10, 20, 30, 40, 50, 60, 70, 80];
    let out = preprocess_rgba_to_nchw(&rgba, 2, 1, 1).unwrap();
    assert_eq!((out.width, out.height), (1, 1));
    assert_eq!(out.data, vec![10, 20, 30]);
}

#[test]
fn preprocess_rejects_short_buffer() {
    let rgba: Vec<u8> = vec![0; 15];
    let r = preprocess_rgba_to_nchw(&rgba, 2, 2, 0);
    assert!(matches!(r, Err(PixelError::BufferTooShort)));
}

#[test]
fn preprocess_zero_dimensions_degenerate() {
    let out = preprocess_rgba_to_nchw(&[], 0, 0, 0).unwrap();
    assert_eq!((out.width, out.height), (0, 0));
    assert!(out.data.is_empty());
    // a zero side with a nonzero buffer degenerates to an empty tensor
    let out = preprocess_rgba_to_nchw(&[1, 2, 3, 4], 0, 5, 0).unwrap();
    assert_eq!((out.width, out.height), (0, 5));
    assert!(out.data.is_empty());
}

#[test]
fn postprocess_planar_reproduces_pixels() {
    let tensor: Vec<f32> = vec![1.0, 0.0, 0.0, 0.0, 0.0, 1.0, 0.0, 0.0, 0.0, 0.0, 1.0, 0.0];
    let vals: Vec<i64> = tensor.iter().map(|&v| denormalize_trunc(v, false)).collect();
    let out = postprocess_to_rgba(&vals, 2, 2, true).unwrap();
    assert_eq!(
        out,
        vec![
            255, 0, 0, 255, //
            0, 255, 0, 255, //
            0, 0, 255, 255, //
            0, 0, 0, 255,
        ]
    );
}

#[test]
fn postprocess_interleaved_reproduces_pixels() {
    let tensor: Vec<f32> = vec![1.0, 0.0, 0.0, 0.0, 1.0, 0.0, 0.0, 0.0, 1.0, 0.0, 0.0, 0.0];
    let vals: Vec<i64> = tensor.iter().map(|&v| denormalize_trunc(v, false)).collect();
    let out = postprocess_to_rgba(&vals, 2, 2, false).unwrap();
    assert_eq!(
        out,
        vec![
            255, 0, 0, 255, //
            0, 255, 0, 255, //
            0, 0, 255, 255, //
            0, 0, 0, 255,
        ]
    );
}

#[test]
fn postprocess_rejects_short_tensor() {
    let vals: Vec<i64> = vec![0; 11];
    assert_eq!(
        postprocess_to_rgba(&vals, 2, 2, true),
        Err(PixelError::BufferTooShort)
    );
}

#[test]
fn postprocess_zero_dimensions_degenerate() {
    let out = postprocess_to_rgba(&[], 0, 0, true).unwrap();
    assert!(out.is_empty());
    // a zero side with a nonzero tensor degenerates to an empty buffer
    let out = postprocess_to_rgba(&[7, 7, 7], 0, 3, false).unwrap();
    assert!(out.is_empty());
}

#[test]
fn round_trip_zero_and_full_unit_range() {
    for &byte in &[0u8, 255u8] {
        let rgba: Vec<u8> = vec![byte, byte, byte, 255, byte, byte, byte, 255];
        let planes = preprocess_rgba_to_nchw(&rgba, 2, 1, 0).unwrap();
        let tensor: Vec<f32> = planes.data.iter().map(|&b| normalize(b, false)).collect();
        let expected = if byte == 0 { 0.0f32 } else { 1.0f32 };
        assert!(tensor.iter().all(|&v| v == expected));
        let vals: Vec<i64> = tensor.iter().map(|&v| denormalize_trunc(v, false)).collect();
        let out = postprocess_to_rgba(&vals, 2, 1, true).unwrap();
        assert_eq!(out, rgba);
    }
}

#[test]
fn round_trip_endpoints_symmetric_range() {
    // byte 0 -> exactly -1.0 -> byte 0; byte 255 -> exactly 1.0 -> byte 255
    assert_eq!(normalize(0, true), -1.0);
    assert_eq!(normalize(255, true), 1.0);
    let rgba: Vec<u8> = vec![0, 255, 0, 9];
    let planes = preprocess_rgba_to_nchw(&rgba, 1, 1, 0).unwrap();
    let tensor: Vec<f32> = planes.data.iter().map(|&b| normalize(b, true)).collect();
    assert_eq!(tensor, vec![-1.0, 1.0, -1.0]);
    let vals: Vec<i64> = tensor.iter().map(|&v| denormalize_trunc(v, true)).collect();
    let out = postprocess_to_rgba(&vals, 1, 1, true).unwrap();
    assert_eq!(out, vec![0, 255, 0, 255]);
}

#[test]
fn out_of_range_values_clamp() {
    // 2.0 and -2.0 are outside both normalised ranges: bytes clamp, never wrap
    let tensor: Vec<f32> = vec![2.0, -2.0, 0.5];
    let vals: Vec<i64> = tensor.iter().map(|&v| denormalize_trunc(v, false)).collect();
    let out = postprocess_to_rgba(&vals, 1, 1, false).unwrap();
    assert_eq!(out, vec![255, 0, 127, 255]);

    let vals_sym: Vec<i64> = tensor.iter().map(|&v| denormalize_trunc(v, true)).collect();
    let out_sym = postprocess_to_rgba(&vals_sym, 1, 1, false).unwrap();
    assert_eq!(out_sym[0], 255);
    assert_eq!(out_sym[1], 0);
    assert_eq!(out_sym[3], 255);
}

#[test]
fn clamp255_saturates_both_ends() {
    assert_eq!(clamp255(-1), 0);
    assert_eq!(clamp255(-510), 0);
    assert_eq!(clamp255(0), 0);
    assert_eq!(clamp255(128), 128);
    assert_eq!(clamp255(255), 255);
    assert_eq!(clamp255(256), 255);
    assert_eq!(clamp255(510), 255);
    assert_eq!(clamp255(i64::MAX), 255);
    assert_eq!(clamp255(i64::MIN), 0);
}

use pixel_tensor::dims::scale_dims;

#[test]
fn no_bound_returns_dims_unchanged() {
    assert_eq!(scale_dims(100, 50, 0), (100, 50));
    assert_eq!(scale_dims(0, 0, 0), (0, 0));
    assert_eq!(scale_dims(4096, 4096, 0), (4096, 4096));
}

#[test]
fn within_bound_returns_dims_unchanged() {
    assert_eq!(scale_dims(100, 50, 100), (100, 50));
    assert_eq!(scale_dims(640, 480, 1024), (640, 480));
    assert_eq!(scale_dims(512, 512, 512), (512, 512));
}

#[test]
fn shrinks_half_width() {
    assert_eq!(scale_dims(100, 50, 50), (50, 25));
}

#[test]
fn shrinks_half_height() {
    assert_eq!(scale_dims(50, 100, 50), (25, 50));
}

#[test]
fn longer_side_lands_on_bound() {
    assert_eq!(scale_dims(1000, 600, 512), (512, 307));
    assert_eq!(scale_dims(600, 1000, 512), (307, 512));
}

#[test]
fn rounds_to_nearest() {
    // 3 * (2/3) = 2 exactly, 2 * (2/3) = 1.33... rounds down
    assert_eq!(scale_dims(3, 2, 2), (2, 1));
    // 1 * (2/4) = 0.5 rounds away from zero, up to 1
    assert_eq!(scale_dims(4, 1, 2), (2, 1));
}

#[test]
fn tiny_side_can_round_to_zero() {
    // 1 * (1/100) = 0.01 rounds to 0: a degenerate but accepted result
    assert_eq!(scale_dims(1, 100, 1), (0, 1));
}

use rusterizer::screen::{ScreenSpace, FAR};
use rusterizer::texture::{Texture, UV_ONE};
use rusterizer::tiling::Rect;

#[test]
fn new_screen_is_black_and_far() {
    let s = ScreenSpace::new(4, 2);
    assert_eq!(s.rgba.len(), 32);
    assert_eq!(s.get_pixel(3, 1), Some((0, 0, 0, 0)));
    assert_eq!(s.get_depth(3, 1), Some(FAR));
    assert_eq!(s.get_pixel(4, 0), None);
    assert_eq!(s.get_depth(0, 2), None);
}

#[test]
fn set_and_get_pixel_are_bounds_checked() {
    let mut s = ScreenSpace::new(3, 3);
    s.set_pixel(1, 2, 10, 20, 30, 40);
    s.set_pixel(3, 0, 1, 1, 1, 1);
    s.set_depth(2, 0, 77);
    s.set_depth(0, 9, 5);
    assert_eq!(s.get_pixel(1, 2), Some((10, 20, 30, 40)));
    assert_eq!(s.get_pixel(0, 2), Some((0, 0, 0, 0)));
    assert_eq!(s.get_depth(2, 0), Some(77));
    assert_eq!(s.rgba.iter().filter(|&&b| b != 0).count(), 4);
    assert_eq!(s.depth.iter().filter(|&&d| d != FAR).count(), 1);
}

#[test]
fn quad_writes_follow_lane_layout_and_mask() {
    let mut s = ScreenSpace::new(4, 4);
    s.set_depth_quad(2, 1, [1, 2, 3, 4], [true, false, true, true]);
    assert_eq!(s.get_depth_quad(2, 1), [1, FAR, 3, 4]);
    assert_eq!(s.get_depth(2, 1), Some(1));
    assert_eq!(s.get_depth(3, 1), Some(FAR));
    assert_eq!(s.get_depth(2, 2), Some(3));
    assert_eq!(s.get_depth(3, 2), Some(4));
    s.set_pixel_quad(0, 0, [1, 2, 3, 4], [5, 6, 7, 8], [9, 10, 11, 12], [13, 14, 15, 16], [false, true, true, false]);
    assert_eq!(s.get_pixel(0, 0), Some((0, 0, 0, 0)));
    assert_eq!(s.get_pixel(1, 0), Some((2, 6, 10, 14)));
    assert_eq!(s.get_pixel(0, 1), Some((3, 7, 11, 15)));
    assert_eq!(s.get_pixel(1, 1), Some((0, 0, 0, 0)));
}

#[test]
fn quad_lanes_outside_the_buffer_are_dropped() {
    let mut s = ScreenSpace::new(3, 3);
    s.set_depth_quad(2, 2, [5, 6, 7, 8], [true, true, true, true]);
    assert_eq!(s.get_depth_quad(2, 2), [5, FAR, FAR, FAR]);
    assert_eq!(s.depth.iter().filter(|&&d| d != FAR).count(), 1);
}

#[test]
fn clear_resets_color_and_depth() {
    let mut s = ScreenSpace::for_rect(Rect { min_x: 2, min_y: 4, max_x: 5, max_y: 6 });
    assert_eq!((s.width, s.height), (3, 2));
    s.set_depth(1, 1, 3);
    s.set_pixel(0, 0, 9, 9, 9, 9);
    s.clear(1, 2, 3, 255);
    for y in 0..2 {
        for x in 0..3 {
            assert_eq!(s.get_pixel(x, y), Some((1, 2, 3, 255)));
            assert_eq!(s.get_depth(x, y), Some(FAR));
        }
    }
}

fn two_by_two() -> Texture {
    // Rows listed from the top of the image.
    let top_down = vec![
        10, 0, 0, 255, 20, 0, 0, 255, //
        30, 0, 0, 255, 40, 0, 0, 255,
    ];
    Texture::from_top_down_rows(2, 2, &top_down)
}

#[test]
fn texture_rows_are_flipped_at_load() {
    let t = two_by_two();
    assert_eq!(t.rgba, vec![30, 0, 0, 255, 40, 0, 0, 255, 10, 0, 0, 255, 20, 0, 0, 255]);
}

#[test]
fn sample_origin_is_bottom_left() {
    let t = two_by_two();
    assert_eq!(t.sample(0, 0), (30, 0, 0, 255));
    assert_eq!(t.sample(UV_ONE - 1, 0), (40, 0, 0, 255));
    assert_eq!(t.sample(0, UV_ONE - 1), (10, 0, 0, 255));
}

#[test]
fn sample_rounds_to_nearest_texel() {
    let t = two_by_two();
    assert_eq!(t.sample(UV_ONE / 2 - 1, 0), (30, 0, 0, 255));
    assert_eq!(t.sample(UV_ONE / 2, 0), (40, 0, 0, 255));
}

#[test]
fn sample_wraps_coordinates() {
    let t = two_by_two();
    assert_eq!(t.sample(UV_ONE, 0), t.sample(0, 0));
    assert_eq!(t.sample(-1, 0), t.sample(UV_ONE - 1, 0));
    assert_eq!(t.sample(3 * UV_ONE + 5, -2 * UV_ONE), t.sample(5, 0));
    assert_eq!(t.sample(-UV_ONE / 4, -3 * UV_ONE / 4), (40, 0, 0, 255));
}

#[test]
fn quad_sampling_matches_scalar_sampling() {
    let t = two_by_two();
    let u = [0, UV_ONE - 1, -7, UV_ONE / 2];
    let v = [0, UV_ONE / 2, 12345, -UV_ONE];
    let a = t.sample_quad(u, v);
    let b = t.sample_quad_test(u, v);
    assert_eq!(a, b);
    for l in 0..4 {
        assert_eq!((a.0[l], a.1[l], a.2[l], a.3[l]), t.sample(u[l], v[l]));
    }
}

use rusterizer::geometry::{point_in_triangle, point_in_triangle_simd, signed_triangle_area, SUBPIXEL};
use rusterizer::merge::merge_tiles;
use rusterizer::point::{dot2, dot2_simd, dot3, dot3_simd, perp, perp_simd, Point2D, Point2Dx4, Point3D, Point3Dx4};
use rusterizer::raster::{rasterize_tile, Triangle3D};
use rusterizer::screen::{ScreenSpace, FAR};
use rusterizer::shading::{shade_pixel, shade_quad, shade_quad_test};
use rusterizer::texture::{Texture, UV_ONE};
use rusterizer::tiling::{subdivide, Rect};

const ONE: i64 = 65536;
/// Inverse depth of a vertex at depth 1.
const INV_ONE: i64 = 1 << 32;

fn pt2(x: i64, y: i64) -> Point2D {
    Point2D { x, y }
}

fn pt3(x: i64, y: i64, z: i64) -> Point3D {
    Point3D { x, y, z }
}

/// Screen position of a pixel coordinate given in halves of a pixel.
fn half_px(v: i64) -> i64 {
    v * SUBPIXEL / 2
}

fn solid_texture(c: (u8, u8, u8, u8)) -> Texture {
    Texture::from_top_down_rows(1, 1, &vec![c.0, c.1, c.2, c.3])
}

#[test]
fn vector_products() {
    assert_eq!(dot2(pt2(3, -4), pt2(5, 6)), -9);
    assert_eq!(perp(pt2(3, -4)), pt2(-4, -3));
    assert_eq!(dot3(pt3(1, 2, 3), pt3(-4, 5, 6)), 24);
    let a = Point2Dx4 { x: [1, 2, 3, 4], y: [5, 6, 7, 8] };
    assert_eq!(dot2_simd(a, a), [26, 40, 58, 80]);
    let q = perp_simd(a);
    assert_eq!(q.x, [5, 6, 7, 8]);
    assert_eq!(q.y, [-1, -2, -3, -4]);
    let b = Point3Dx4 { x: [1, 0, 0, 2], y: [0, 1, 0, 2], z: [0, 0, 1, 2] };
    assert_eq!(dot3_simd(b, b), [1, 1, 1, 12]);
}

#[test]
fn signed_area_sign_follows_winding() {
    // Counter-clockwise (with y up) is positive: the 2D cross product.
    let a = pt2(0, 0);
    let b = pt2(10, 0);
    let c = pt2(0, 10);
    assert_eq!(signed_triangle_area(a, b, c), 100);
    assert_eq!(signed_triangle_area(a, c, b), -100);
    assert_eq!(signed_triangle_area(a, b, pt2(5, 0)), 0);
    assert_eq!(signed_triangle_area(a, b, pt2(3, 7)), 70);
}

#[test]
fn corner_triangle_covers_lower_left_pixels() {
    // Pixel positions (0.5, 0.5), (3.5, 0.5), (0.5, 3.5): a positive area.
    let (a, b, c) = (pt2(128, 128), pt2(896, 128), pt2(128, 896));
    let area = signed_triangle_area(a, b, c);
    assert_eq!(area, 768 * 768);
    for py in 0..4i64 {
        for px in 0..4i64 {
            let mut w = pt3(0, 0, 0);
            let p = pt2(px * SUBPIXEL + SUBPIXEL / 2, py * SUBPIXEL + SUBPIXEL / 2);
            assert_eq!(point_in_triangle(a, b, c, p, area, &mut w), px + py <= 3, "pixel ({px}, {py})");
        }
    }
}

#[test]
fn barycentric_weights_sum_to_area() {
    let (a, b, c) = (pt2(0, 0), pt2(400, 0), pt2(0, 300));
    let area = signed_triangle_area(a, b, c);
    assert_eq!(area, 120000);
    for &(x, y) in &[(1, 1), (100, 100), (399, 0), (0, 299), (133, 100)] {
        let p = pt2(x, y);
        let mut w = pt3(0, 0, 0);
        assert!(point_in_triangle(a, b, c, p, area, &mut w));
        assert!(w.x >= 0 && w.y >= 0 && w.z >= 0);
        assert_eq!(w.x + w.y + w.z, area);
    }
    let mut w = pt3(7, 7, 7);
    assert!(!point_in_triangle(a, b, c, pt2(300, 300), area, &mut w));
    assert_eq!(w, pt3(7, 7, 7));
    assert!(!point_in_triangle(a, c, b, pt2(1, 1), -area, &mut w));
}

#[test]
fn lane_coverage_matches_scalar_coverage() {
    let (a, b, c) = (pt2(0, 0), pt2(400, 0), pt2(0, 300));
    let area = signed_triangle_area(a, b, c);
    let p = Point2Dx4 { x: [1, 200, 399, -1], y: [1, 200, 0, 5] };
    let mut w = Point3Dx4 { x: [0; 4], y: [0; 4], z: [0; 4] };
    let inside = point_in_triangle_simd(a, b, c, p, area, &mut w);
    assert_eq!(inside, [true, false, true, false]);
    for l in 0..4 {
        assert_eq!(w.x[l] + w.y[l] + w.z[l], area);
        assert_eq!(w.z[l], signed_triangle_area(a, b, pt2(p.x[l], p.y[l])));
    }
}

#[test]
fn shading_scales_by_half_lambert() {
    let c = (200, 100, 50, 77);
    let up = pt3(0, 0, ONE);
    assert_eq!(shade_pixel(c.0, c.1, c.2, c.3, up, up), (200, 100, 50, 77));
    assert_eq!(shade_pixel(c.0, c.1, c.2, c.3, up, pt3(0, 0, -3)), (0, 0, 0, 77));
    assert_eq!(shade_pixel(c.0, c.1, c.2, c.3, up, pt3(ONE, 0, 0)), (100, 50, 25, 77));
    assert_eq!(shade_pixel(c.0, c.1, c.2, c.3, pt3(0, 0, 0), up), (100, 50, 25, 77));
    // cos = 3/5: intensity 4/5, from the exact lengths 5 * 4 and 1.
    assert_eq!(shade_pixel(c.0, c.1, c.2, c.3, pt3(12, 16, 0), pt3(1, 0, 0)), (160, 80, 40, 77));
    // Lengths sqrt(2) and 1: cos = 1/sqrt(2), rounded product of lengths 1.
    assert_eq!(shade_pixel(201, 0, 0, 0, pt3(1, 1, 0), pt3(1, 0, 0)), (201, 0, 0, 0));
    // Lengths sqrt(2 * 10^10) and 1: product of lengths 141421.
    assert_eq!(shade_pixel(255, 0, 0, 0, pt3(100000, 100000, 0), pt3(1, 0, 0)), (217, 0, 0, 0));
}

#[test]
fn quad_shading_matches_scalar_shading() {
    let r = [200, 10, 255, 0];
    let g = [100, 20, 128, 0];
    let b = [50, 30, 1, 0];
    let a = [255, 0, 9, 3];
    let n = Point3Dx4 { x: [0, 12, -5, 0], y: [0, 16, 7, 0], z: [ONE, 0, 3, 0] };
    let light = pt3(3, -1, 2);
    let q = shade_quad(r, g, b, a, n, light);
    assert_eq!(q, shade_quad_test(r, g, b, a, n, light));
    for l in 0..4 {
        let s = shade_pixel(r[l], g[l], b[l], a[l], pt3(n.x[l], n.y[l], n.z[l]), light);
        assert_eq!((q.0[l], q.1[l], q.2[l], q.3[l]), s);
    }
}

#[test]
fn bounding_box_is_clamped_and_block_aligned() {
    let n = pt3(0, 0, ONE);
    let t = pt2(0, 0);
    let tri = Triangle3D::with_bounding_box(
        pt3(half_px(3), half_px(5), INV_ONE),
        pt3(half_px(9), half_px(-4), INV_ONE),
        pt3(half_px(40), half_px(7), INV_ONE),
        t, t, t, n, n, n, 16, 8,
    );
    // x spans pixels 1.5 .. 20 (clamped to 15), y spans -2 .. 3.5.
    assert_eq!((tri.bb_start_x, tri.bb_end_x), (0, 16));
    assert_eq!((tri.bb_start_y, tri.bb_end_y), (0, 4));
    let tri = Triangle3D::with_bounding_box(
        pt3(half_px(7), half_px(7), INV_ONE),
        pt3(half_px(11), half_px(7), INV_ONE),
        pt3(half_px(7), half_px(9), INV_ONE),
        t, t, t, n, n, n, 16, 8,
    );
    // x spans 3.5 .. 5.5, y spans 3.5 .. 4.5.
    assert_eq!((tri.bb_start_x, tri.bb_end_x), (2, 6));
    assert_eq!((tri.bb_start_y, tri.bb_end_y), (2, 6));
}

fn flat_triangle(a: (i64, i64), b: (i64, i64), c: (i64, i64), inv_depth: i64, w: u32, h: u32) -> Triangle3D {
    let n = pt3(0, 0, ONE);
    let t = pt2(0, 0);
    Triangle3D::with_bounding_box(
        pt3(half_px(a.0), half_px(a.1), inv_depth),
        pt3(half_px(b.0), half_px(b.1), inv_depth),
        pt3(half_px(c.0), half_px(c.1), inv_depth),
        t, t, t, n, n, n, w, h,
    )
}

fn render(width: u32, height: u32, depth: u32, tris: &Vec<Triangle3D>, tex: &Texture, light: Point3D) -> ScreenSpace {
    let mut tiles: Vec<ScreenSpace> = subdivide(width, height, depth).into_iter().map(ScreenSpace::for_rect).collect();
    for tile in tiles.iter_mut() {
        tile.clear(0, 0, 0, 255);
        rasterize_tile(tile, tris, tex, light);
    }
    let mut screen = ScreenSpace::new(width, height);
    merge_tiles(&mut screen, &tiles);
    screen
}

#[test]
fn four_by_four_corner_triangle() {
    let tiles = subdivide(4, 4, 1);
    assert_eq!(tiles.len(), 2);
    assert!(tiles.iter().all(|r| r.width() == 2 && r.height() == 4));
    // Vertices at pixel positions (0.5, 0.5), (3.5, 0.5), (0.5, 3.5), depth 1.
    let tri = flat_triangle((1, 1), (7, 1), (1, 7), INV_ONE, 4, 4);
    let tex = solid_texture((200, 100, 50, 255));
    let up = pt3(0, 0, ONE);
    let tris = vec![tri];
    let mut tile_buffers: Vec<ScreenSpace> = tiles.iter().map(|r| ScreenSpace::for_rect(*r)).collect();
    for t in tile_buffers.iter_mut() {
        t.clear(0, 0, 0, 255);
        rasterize_tile(t, &tris, &tex, up);
    }
    let mut screen = ScreenSpace::new(4, 4);
    merge_tiles(&mut screen, &tile_buffers);
    for y in 0..4u32 {
        for x in 0..4u32 {
            let tile = &tile_buffers[if x < 2 { 0 } else { 1 }];
            let d = tile.get_depth(x - tile.rect.min_x, y).unwrap();
            if x + y <= 3 {
                assert_eq!(screen.get_pixel(x, y), Some((200, 100, 50, 255)), "pixel ({x}, {y})");
                assert_eq!(d, ONE as u64, "depth at ({x}, {y})");
            } else {
                assert_eq!(screen.get_pixel(x, y), Some((0, 0, 0, 255)), "pixel ({x}, {y})");
                assert_eq!(d, FAR);
            }
        }
    }
    // A light at right angles halves every channel.
    let screen = render(4, 4, 1, &tris, &tex, pt3(ONE, 0, 0));
    assert_eq!(screen.get_pixel(0, 0), Some((100, 50, 25, 255)));
    assert_eq!(screen.get_pixel(3, 3), Some((0, 0, 0, 255)));
}

#[test]
fn back_facing_and_degenerate_triangles_are_skipped() {
    let tex = solid_texture((9, 9, 9, 9));
    let up = pt3(0, 0, ONE);
    let back = flat_triangle((1, 1), (1, 7), (7, 1), INV_ONE, 4, 4);
    let flat = flat_triangle((1, 1), (3, 3), (5, 5), INV_ONE, 4, 4);
    let behind = flat_triangle((1, 1), (7, 1), (1, 7), 0, 4, 4);
    let screen = render(4, 4, 1, &vec![back, flat, behind], &tex, up);
    assert!(screen.rgba.chunks(4).all(|c| c == [0, 0, 0, 255]));
}

#[test]
fn nearer_triangle_wins_in_either_order() {
    let up = pt3(0, 0, ONE);
    // Both cover the whole 8x8 screen; the texture of each is selected by its uv.
    let tex = Texture::from_top_down_rows(2, 1, &vec![255, 0, 0, 255, 0, 0, 255, 255]);
    let mut near = flat_triangle((-2, -2), (40, -2), (-2, 40), INV_ONE * 2, 8, 8);
    let mut far = flat_triangle((-2, -2), (40, -2), (-2, 40), INV_ONE, 8, 8);
    near.ta = pt2(0, 0);
    near.tb = pt2(0, 0);
    near.tc = pt2(0, 0);
    far.ta = pt2(UV_ONE - 1, 0);
    far.tb = pt2(UV_ONE - 1, 0);
    far.tc = pt2(UV_ONE - 1, 0);
    let ab = render(8, 8, 2, &vec![near, far], &tex, up);
    let ba = render(8, 8, 2, &vec![far, near], &tex, up);
    assert_eq!(ab.rgba, ba.rgba);
    assert!(ab.rgba.chunks(4).all(|c| c == [255, 0, 0, 255]));
    let only_far = render(8, 8, 2, &vec![far], &tex, up);
    assert!(only_far.rgba.chunks(4).all(|c| c == [0, 0, 255, 255]));
}

#[test]
fn equal_depth_keeps_first_triangle() {
    let up = pt3(0, 0, ONE);
    let tex = Texture::from_top_down_rows(2, 1, &vec![255, 0, 0, 255, 0, 0, 255, 255]);
    let mut first = flat_triangle((-2, -2), (40, -2), (-2, 40), INV_ONE, 8, 8);
    let mut second = first;
    first.ta = pt2(0, 0);
    first.tb = pt2(0, 0);
    first.tc = pt2(0, 0);
    second.ta = pt2(UV_ONE - 1, 0);
    second.tb = pt2(UV_ONE - 1, 0);
    second.tc = pt2(UV_ONE - 1, 0);
    let s = render(8, 8, 1, &vec![first, second], &tex, up);
    assert!(s.rgba.chunks(4).all(|c| c == [255, 0, 0, 255]));
    let s = render(8, 8, 1, &vec![second, first], &tex, up);
    assert!(s.rgba.chunks(4).all(|c| c == [0, 0, 255, 255]));
}

#[test]
fn vertex_texture_coordinates_are_reproduced_at_vertices() {
    // A 4x1 texture; each vertex of the triangle sits on a pixel center and
    // carries the texture coordinate of a different texel.
    let tex = Texture::from_top_down_rows(4, 1, &vec![
        10, 0, 0, 255, 20, 0, 0, 255, 30, 0, 0, 255, 40, 0, 0, 255,
    ]);
    let n = pt3(0, 0, ONE);
    let uv = |i: i64| pt2((i * UV_ONE / 3).min(UV_ONE - 1), 0);
    let tri = Triangle3D::with_bounding_box(
        pt3(half_px(1), half_px(1), INV_ONE),
        pt3(half_px(13), half_px(1), INV_ONE / 2),
        pt3(half_px(1), half_px(13), INV_ONE * 3),
        uv(0), uv(3), uv(2), n, n, n, 8, 8,
    );
    let screen = render(8, 8, 2, &vec![tri], &tex, n);
    assert_eq!(screen.get_pixel(0, 0), Some((10, 0, 0, 255)));
    assert_eq!(screen.get_pixel(0, 6), Some((30, 0, 0, 255)));
    assert_eq!(screen.get_pixel(6, 0), Some((40, 0, 0, 255)));
}

#[test]
fn merge_copies_each_tile_to_its_place() {
    let rects = vec![
        Rect { min_x: 0, min_y: 0, max_x: 3, max_y: 2 },
        Rect { min_x: 3, min_y: 0, max_x: 6, max_y: 2 },
        Rect { min_x: 0, min_y: 2, max_x: 6, max_y: 4 },
    ];
    let mut tiles: Vec<ScreenSpace> = rects.iter().map(|r| ScreenSpace::for_rect(*r)).collect();
    for (i, t) in tiles.iter_mut().enumerate() {
        t.clear(i as u8 + 1, 0, 0, 255);
        t.set_pixel(0, 1, 99, 98, 97, 96);
    }
    let mut screen = ScreenSpace::new(5, 3);
    screen.clear(7, 7, 7, 7);
    merge_tiles(&mut screen, &tiles);
    assert_eq!(screen.get_pixel(2, 0), Some((1, 0, 0, 255)));
    assert_eq!(screen.get_pixel(0, 1), Some((99, 98, 97, 96)));
    assert_eq!(screen.get_pixel(3, 0), Some((2, 0, 0, 255)));
    assert_eq!(screen.get_pixel(3, 1), Some((99, 98, 97, 96)));
    assert_eq!(screen.get_pixel(4, 1), Some((2, 0, 0, 255)));
    assert_eq!(screen.get_pixel(4, 2), Some((3, 0, 0, 255)));
    assert_eq!(screen.get_pixel(0, 2), Some((3, 0, 0, 255)));
    assert_eq!(screen.get_depth(0, 0), Some(FAR));
}

#[test]
fn merged_frame_matches_owning_tiles() {
    let tex = Texture::from_top_down_rows(2, 2, &vec![
        255, 0, 0, 255, 0, 255, 0, 255, //
        0, 0, 255, 255, 255, 255, 255, 255,
    ]);
    let n = pt3(0, 0, ONE);
    let tri = Triangle3D::with_bounding_box(
        pt3(half_px(-3), half_px(2), INV_ONE),
        pt3(half_px(29), half_px(9), INV_ONE * 3),
        pt3(half_px(5), half_px(30), INV_ONE * 2),
        pt2(0, 0), pt2(UV_ONE, 0), pt2(0, UV_ONE), n, pt3(0, ONE, ONE), pt3(ONE, 0, 0), 12, 12,
    );
    let tris = vec![tri];
    let rects = subdivide(12, 12, 3);
    let mut tiles: Vec<ScreenSpace> = rects.iter().map(|r| ScreenSpace::for_rect(*r)).collect();
    for t in tiles.iter_mut() {
        t.clear(0, 0, 0, 255);
        rasterize_tile(t, &tris, &tex, pt3(0, 3, 4));
    }
    let mut screen = ScreenSpace::new(12, 12);
    merge_tiles(&mut screen, &tiles);
    for t in &tiles {
        for y in 0..t.height {
            for x in 0..t.width {
                assert_eq!(screen.get_pixel(t.rect.min_x + x, t.rect.min_y + y), t.get_pixel(x, y));
            }
        }
    }
    let whole = render(12, 12, 0, &tris, &tex, pt3(0, 3, 4));
    assert_eq!(whole.rgba, screen.rgba);
    assert!(screen.rgba.chunks(4).any(|c| c != [0, 0, 0, 255]));
}

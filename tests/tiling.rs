use rusterizer::tiling::{compute_subdivisions, subdivide, Rect};

#[test]
fn subdivisions_reach_worker_count() {
    assert_eq!(compute_subdivisions(0), 0);
    assert_eq!(compute_subdivisions(1), 0);
    assert_eq!(compute_subdivisions(2), 1);
    assert_eq!(compute_subdivisions(3), 2);
    assert_eq!(compute_subdivisions(8), 3);
    assert_eq!(compute_subdivisions(9), 4);
    assert_eq!(compute_subdivisions(16), 4);
}

#[test]
fn rect_extents() {
    let r = Rect { min_x: 3, min_y: 5, max_x: 10, max_y: 6 };
    assert_eq!(r.width(), 7);
    assert_eq!(r.height(), 1);
}

#[test]
fn depth_zero_is_whole_screen() {
    let rects = subdivide(7, 3, 0);
    assert_eq!(rects, vec![Rect { min_x: 0, min_y: 0, max_x: 7, max_y: 3 }]);
}

#[test]
fn four_by_four_depth_one_splits_vertically() {
    let rects = subdivide(4, 4, 1);
    assert_eq!(
        rects,
        vec![
            Rect { min_x: 0, min_y: 0, max_x: 2, max_y: 4 },
            Rect { min_x: 2, min_y: 0, max_x: 4, max_y: 4 },
        ]
    );
}

#[test]
fn splits_alternate_direction() {
    let rects = subdivide(4, 4, 2);
    assert_eq!(
        rects,
        vec![
            Rect { min_x: 0, min_y: 0, max_x: 2, max_y: 2 },
            Rect { min_x: 0, min_y: 2, max_x: 2, max_y: 4 },
            Rect { min_x: 2, min_y: 0, max_x: 4, max_y: 2 },
            Rect { min_x: 2, min_y: 2, max_x: 4, max_y: 4 },
        ]
    );
}

#[test]
fn odd_extent_gives_extra_pixel_to_first_half() {
    let rects = subdivide(5, 2, 1);
    assert_eq!(
        rects,
        vec![
            Rect { min_x: 0, min_y: 0, max_x: 3, max_y: 2 },
            Rect { min_x: 3, min_y: 0, max_x: 5, max_y: 2 },
        ]
    );
}

fn count_owners(rects: &[Rect], x: u32, y: u32) -> usize {
    rects
        .iter()
        .filter(|r| r.min_x <= x && x < r.max_x && r.min_y <= y && y < r.max_y)
        .count()
}

#[test]
fn tiles_partition_the_screen() {
    for &(w, h, d) in &[(1920u32, 1080u32, 5u32), (37, 11, 4), (2, 2, 3), (0, 5, 2)] {
        let rects = subdivide(w, h, d);
        assert_eq!(rects.len(), 1 << d);
        for y in 0..h {
            for x in 0..w {
                assert_eq!(count_owners(&rects, x, y), 1, "pixel ({x}, {y}) of {w}x{h} at depth {d}");
            }
        }
        let area: u64 = rects.iter().map(|r| r.width() as u64 * r.height() as u64).sum();
        assert_eq!(area, w as u64 * h as u64);
    }
}

use rusterizer::mesh::{fan_triangulate_faces, parse_face_vertex, Face, FaceError, FaceTriangle};
use rusterizer::paint::paint_rectangles;
use rusterizer::screen::ScreenSpace;
use rusterizer::tiling::{subdivide, Rect};

#[test]
fn face_vertex_with_all_indices() {
    assert_eq!(parse_face_vertex("3/4/5"), Ok((2, Some(3), Some(4))));
    assert_eq!(parse_face_vertex("1/2/3/4"), Ok((0, Some(1), Some(2))));
    assert_eq!(parse_face_vertex("+7/1/1"), Ok((6, Some(0), Some(0))));
}

#[test]
fn face_vertex_with_missing_indices() {
    assert_eq!(parse_face_vertex("1"), Ok((0, None, None)));
    assert_eq!(parse_face_vertex("3//5"), Ok((2, None, Some(4))));
    assert_eq!(parse_face_vertex("3/4"), Ok((2, Some(3), None)));
    assert_eq!(parse_face_vertex("3/4/"), Ok((2, Some(3), None)));
    assert_eq!(parse_face_vertex("3/"), Ok((2, None, None)));
}

#[test]
fn face_vertex_errors() {
    assert_eq!(parse_face_vertex(""), Err(FaceError::InvalidIndex));
    assert_eq!(parse_face_vertex("/1/1"), Err(FaceError::InvalidIndex));
    assert_eq!(parse_face_vertex("a/1"), Err(FaceError::InvalidIndex));
    assert_eq!(parse_face_vertex("1/x/2"), Err(FaceError::InvalidIndex));
    assert_eq!(parse_face_vertex("1/2/-3"), Err(FaceError::InvalidIndex));
    assert_eq!(parse_face_vertex("+"), Err(FaceError::InvalidIndex));
    assert_eq!(parse_face_vertex("0/1/1"), Err(FaceError::ZeroIndex));
    assert_eq!(parse_face_vertex("1/0"), Err(FaceError::ZeroIndex));
    assert_eq!(parse_face_vertex("99999999999999999999999"), Err(FaceError::InvalidIndex));
    assert_eq!(parse_face_vertex("18446744073709551616"), Err(FaceError::InvalidIndex));
    assert_eq!(parse_face_vertex("18446744073709551615"), Ok((usize::MAX - 1, None, None)));
}

#[test]
fn faces_become_fans() {
    let faces = vec![
        Face { v_indices: vec![10, 11, 12, 13, 14], vt_indices: vec![0, 1, 2, 3, 4], vn_indices: vec![5, 5, 6, 6, 7] },
        Face { v_indices: vec![1, 2], vt_indices: vec![1, 2], vn_indices: vec![1, 2] },
        Face { v_indices: vec![7, 8, 9], vt_indices: vec![0, 0, 0], vn_indices: vec![3, 2, 1] },
    ];
    let tris = fan_triangulate_faces(&faces);
    assert_eq!(
        tris,
        vec![
            FaceTriangle { v: [10, 11, 12], vt: [0, 1, 2], vn: [5, 5, 6] },
            FaceTriangle { v: [10, 12, 13], vt: [0, 2, 3], vn: [5, 6, 6] },
            FaceTriangle { v: [10, 13, 14], vt: [0, 3, 4], vn: [5, 6, 7] },
            FaceTriangle { v: [7, 8, 9], vt: [0, 0, 0], vn: [3, 2, 1] },
        ]
    );
    assert!(fan_triangulate_faces(&vec![]).is_empty());
}

#[test]
fn extra_corner_indices_are_ignored() {
    let faces = vec![Face { v_indices: vec![4, 5, 6, 7], vt_indices: vec![0, 1, 2, 3, 9, 9], vn_indices: vec![8, 8, 8, 8, 8] }];
    assert_eq!(
        fan_triangulate_faces(&faces),
        vec![
            FaceTriangle { v: [4, 5, 6], vt: [0, 1, 2], vn: [8, 8, 8] },
            FaceTriangle { v: [4, 6, 7], vt: [0, 2, 3], vn: [8, 8, 8] },
        ]
    );
}

#[test]
fn rectangles_are_painted_with_borders() {
    let rects = vec![
        Rect { min_x: 0, min_y: 0, max_x: 1, max_y: 1 },
        Rect { min_x: 1, min_y: 1, max_x: 9, max_y: 2 },
    ];
    let colors = vec![(10, 20, 30), (40, 50, 60)];
    let img = paint_rectangles(&rects, &colors, 3, 3);
    let at = |x: usize, y: usize| (img[3 * (y * 3 + x)], img[3 * (y * 3 + x) + 1], img[3 * (y * 3 + x) + 2]);
    assert_eq!(img.len(), 27);
    assert_eq!(at(0, 0), (10, 20, 30));
    assert_eq!(at(1, 0), (10, 20, 30));
    assert_eq!(at(0, 1), (10, 20, 30));
    assert_eq!(at(1, 1), (40, 50, 60));
    assert_eq!(at(2, 2), (40, 50, 60));
    assert_eq!(at(2, 0), (0, 0, 0));
    assert_eq!(at(0, 2), (0, 0, 0));
}

#[test]
fn tiling_painting_covers_the_screen() {
    let rects = subdivide(6, 4, 2);
    let colors = vec![(1, 1, 1), (2, 2, 2), (3, 3, 3), (4, 4, 4)];
    let img = paint_rectangles(&rects, &colors, 6, 4);
    assert!(img.iter().all(|&b| b != 0));
}

#[test]
fn bmp_encoding_of_two_by_two() {
    let mut s = ScreenSpace::new(2, 2);
    s.set_pixel(0, 0, 1, 2, 3, 255);
    s.set_pixel(1, 0, 4, 5, 6, 255);
    s.set_pixel(0, 1, 7, 8, 9, 255);
    s.set_pixel(1, 1, 10, 11, 12, 255);
    let bytes = s.bmp_bytes();
    let mut expected: Vec<u8> = vec![
        b'B', b'M', 70, 0, 0, 0, 0, 0, 0, 0, 54, 0, 0, 0, 40, 0, 0, 0, 2, 0, 0, 0, 2, 0, 0, 0, 1, 0, 24, 0, 0, 0, 0, 0, 16,
        0, 0, 0,
    ];
    expected.extend_from_slice(&[0; 16]);
    expected.extend_from_slice(&[9, 8, 7, 12, 11, 10, 0, 0]);
    expected.extend_from_slice(&[3, 2, 1, 6, 5, 4, 0, 0]);
    assert_eq!(bytes, expected);
}

#[test]
fn bmp_rows_are_padded_to_four_bytes() {
    let s = ScreenSpace::new(5, 3);
    let bytes = s.bmp_bytes();
    // 15 bytes of pixels per row, padded to 16.
    assert_eq!(bytes.len(), 54 + 16 * 3);
    assert_eq!(&bytes[2..6], &[102, 0, 0, 0]);
    assert_eq!(&bytes[18..22], &[5, 0, 0, 0]);
    assert_eq!(&bytes[34..38], &[48, 0, 0, 0]);
}

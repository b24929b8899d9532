use sway::mesh::{
    disk_indices, frame_indices, merge_indices, outline_indices, push_fan, quad_indices, quads_indices,
    ring_indices, strip_fill_indices,
};

#[test]
fn quad_is_two_triangles() {
    assert_eq!(quad_indices(), vec![0, 1, 2, 0, 2, 3]);
}

#[test]
fn frame_joins_outer_and_inner_rectangles() {
    assert_eq!(
        frame_indices(),
        vec![0, 1, 5, 0, 5, 4, 1, 2, 6, 1, 6, 5, 2, 3, 7, 2, 7, 6, 3, 0, 4, 3, 4, 7]
    );
}

#[test]
fn quads_follow_one_another() {
    assert_eq!(quads_indices(2), vec![0, 1, 2, 0, 2, 3, 4, 5, 6, 4, 6, 7]);
    assert!(quads_indices(0).is_empty());
}

#[test]
fn ring_segments_share_vertex_pairs() {
    assert_eq!(ring_indices(2), vec![0, 1, 2, 1, 3, 2, 2, 3, 4, 3, 5, 4]);
}

#[test]
fn disk_is_a_fan_around_vertex_zero() {
    assert_eq!(disk_indices(3), vec![0, 1, 2, 0, 2, 3, 0, 3, 4]);
}

#[test]
fn fan_appends_to_existing_indices() {
    let mut out = vec![7u32];
    push_fan(&mut out, 10, 11, 2);
    assert_eq!(out, vec![7, 10, 11, 12, 10, 12, 13]);
}

#[test]
fn strip_fill_without_caps() {
    assert_eq!(strip_fill_indices(2, 0, 1), vec![0, 2, 1, 1, 2, 3]);
}

#[test]
fn strip_fill_with_caps() {
    // rails of 2 points (vertices 0..4), head cap centre 4 with rim 5..8,
    // tail cap centre 8 with rim 9..11: 11 vertices
    let r = strip_fill_indices(2, 3, 2);
    assert_eq!(r, vec![0, 2, 1, 1, 2, 3, 4, 5, 6, 4, 6, 7, 8, 9, 10]);
    assert!(r.iter().all(|&i| i < 11));
}

#[test]
fn outline_bands_each_polygon() {
    assert_eq!(
        outline_indices(&vec![3]),
        vec![0, 1, 3, 0, 3, 2, 2, 3, 5, 2, 5, 4, 4, 5, 1, 4, 1, 0]
    );
    // a polygon of two vertices takes no vertices and no band
    assert_eq!(outline_indices(&vec![2, 3]), outline_indices(&vec![3]));
    let both = outline_indices(&vec![3, 3]);
    assert_eq!(both.len(), 36);
    assert_eq!(both[18], 6);
    assert!(both.iter().all(|&i| i < 12));
}

#[test]
fn merged_indices_are_shifted_past_earlier_meshes() {
    let r = merge_indices(&vec![4, 3], &vec![vec![0, 1, 2], vec![0, 1, 2]]);
    assert_eq!(r, vec![0, 1, 2, 4, 5, 6]);
    assert!(r.iter().all(|&i| i < 7));
    assert!(merge_indices(&vec![], &vec![]).is_empty());
}

#[test]
fn strip_fill_of_short_rails_is_empty() {
    // fewer than two points per rail make no mesh, caps included
    assert!(strip_fill_indices(1, 3, 3).is_empty());
    assert!(strip_fill_indices(0, 0, 0).is_empty());
}

#[test]
fn merging_meshes_without_vertices_gives_no_indices() {
    assert!(merge_indices(&vec![0, 0], &vec![vec![], vec![]]).is_empty());
    assert!(merge_indices(&vec![0], &vec![vec![0, 1, 2]]).is_empty());
}

use kricon::faces::{enclosed_faces, face_key};
use kricon::mesh::{Mesh, Point, Rgba};

fn p(x: f32, y: f32) -> Point {
    Point { x: x.to_bits(), y: y.to_bits() }
}

fn square_with_face() -> (Mesh, Vec<Vec<usize>>) {
    let mut mesh = Mesh::default();
    mesh.add_loop(&[p(0.0, 0.0), p(1.0, 0.0), p(1.0, 1.0), p(0.0, 1.0)], false);
    (mesh, vec![vec![2, 3, 0, 1]])
}

#[test]
fn face_keys_sort_and_drop_repeats() {
    assert_eq!(face_key(&[3, 1, 2, 1]), vec![1, 2, 3]);
    assert_eq!(face_key(&[]), Vec::<usize>::new());
}

#[test]
fn enclosed_faces_need_all_vertices() {
    let faces = vec![vec![2, 0, 1], vec![3, 4, 5]];
    assert_eq!(enclosed_faces(&faces, &[0, 1, 2, 3]), vec![vec![0, 1, 2]]);
}

#[test]
fn holes_toggle_on_and_off() {
    let (mut mesh, faces) = square_with_face();
    mesh.toggle_hole(&faces, &[0, 1, 2, 3]);
    assert_eq!(mesh.holes, vec![vec![0, 1, 2, 3]]);
    assert!(mesh.filled_faces(&faces).is_empty());
    mesh.toggle_hole(&faces, &[0, 1, 2, 3]);
    assert!(mesh.holes.is_empty());
    assert_eq!(mesh.filled_faces(&faces), faces);
}

#[test]
fn colors_default_to_white_and_can_be_set() {
    let (mut mesh, faces) = square_with_face();
    assert_eq!(mesh.face_color(&faces, &[0, 1, 2, 3]), Some(Rgba { r: 255, g: 255, b: 255, a: 255 }));
    assert_eq!(mesh.face_color(&faces, &[0, 1]), None);
    let blue = Rgba { r: 0, g: 0, b: 255, a: 255 };
    mesh.set_color(&faces, &[0, 1, 2, 3], blue);
    assert_eq!(mesh.colors, vec![(vec![0, 1, 2, 3], blue)]);
    assert_eq!(mesh.color_of(&[0, 1, 2, 3]), blue);
    mesh.set_color(&faces, &[0, 1, 2, 3], Rgba { r: 1, g: 1, b: 1, a: 1 });
    assert_eq!(mesh.colors.len(), 1);
}

#[test]
fn pruning_removes_dangling_chains() {
    let lists = vec![vec![1, 2, 3], vec![0, 2], vec![1, 0], vec![0, 4], vec![3]];
    let pruned = kricon::planar::prune_leaves(lists);
    assert_eq!(pruned, vec![vec![1, 2], vec![0, 2], vec![1, 0], vec![], vec![]]);
}

#[test]
fn pruning_keeps_a_cycle_whole() {
    let lists = vec![vec![1, 2], vec![0, 2], vec![1, 0]];
    let pruned = kricon::planar::prune_leaves(lists.clone());
    assert_eq!(pruned, lists);
}

#[test]
fn pruning_a_path_leaves_nothing() {
    let lists = vec![vec![1], vec![0, 2], vec![1]];
    let pruned = kricon::planar::prune_leaves(lists);
    assert!(pruned.iter().all(|list| list.is_empty()));
}

#[test]
fn tracing_a_triangle_gives_both_sides() {
    let rotation = vec![vec![1, 2], vec![0, 2], vec![1, 0]];
    let faces = kricon::planar::trace_faces(&rotation);
    assert_eq!(
        faces,
        vec![vec![0, 1, 2], vec![0, 2, 1], vec![], vec![], vec![], vec![]]
    );
}

#[test]
fn tracing_two_triangles_sharing_an_edge() {
    let rotation = vec![vec![1, 2, 3], vec![0, 2], vec![1, 3, 0], vec![2, 0]];
    let faces: Vec<Vec<usize>> = kricon::planar::trace_faces(&rotation)
        .into_iter()
        .filter(|face| !face.is_empty())
        .collect();
    assert_eq!(faces, vec![vec![0, 1, 2], vec![0, 2, 3], vec![0, 3, 2, 1]]);
}

#[test]
fn toggling_twice_keeps_the_other_holes() {
    let (mut mesh, faces) = square_with_face();
    mesh.holes = vec![vec![5, 6, 7]];
    mesh.toggle_hole(&faces, &[0, 1, 2, 3]);
    assert_eq!(mesh.holes, vec![vec![5, 6, 7], vec![0, 1, 2, 3]]);
    mesh.toggle_hole(&faces, &[0, 1, 2, 3]);
    assert_eq!(mesh.holes, vec![vec![5, 6, 7]]);
}

#[test]
fn a_colour_set_is_the_colour_read() {
    let (mut mesh, faces) = square_with_face();
    mesh.colors = vec![(vec![0, 1, 2, 3], Rgba { r: 9, g: 9, b: 9, a: 9 })];
    let red = Rgba { r: 255, g: 0, b: 0, a: 255 };
    mesh.set_color(&faces, &[0, 1, 2, 3], red);
    assert_eq!(mesh.face_color(&faces, &[0, 1, 2, 3]), Some(red));
}

#[test]
fn traced_faces_pass_every_dart_once() {
    let rotation = vec![vec![1, 3, 2], vec![2, 0], vec![0, 3, 1], vec![0, 2]];
    let faces = kricon::planar::trace_faces(&rotation);
    let darts: usize = rotation.iter().map(|list| list.len()).sum();
    assert_eq!(faces.iter().map(|face| face.len()).sum::<usize>(), darts);
    assert_eq!(faces.iter().filter(|face| !face.is_empty()).count(), 3);
}

#[test]
fn toggling_a_hole_twice_refills_then_restores_it() {
    let (mut mesh, faces) = square_with_face();
    mesh.holes = vec![vec![0, 1, 2, 3], vec![5, 6, 7]];
    mesh.toggle_hole(&faces, &[0, 1, 2, 3]);
    assert_eq!(mesh.holes, vec![vec![5, 6, 7]]);
    mesh.toggle_hole(&faces, &[0, 1, 2, 3]);
    assert_eq!(mesh.holes, vec![vec![5, 6, 7], vec![0, 1, 2, 3]]);
}

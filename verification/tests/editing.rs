use kricon::mesh::{Mesh, Point};
use kricon::selection::{extend_selection, select, select_face, select_layer};
use kricon::transform::{free_axes, toggle_axis, type_char, Axis};

fn p(x: f32, y: f32) -> Point {
    Point { x: x.to_bits(), y: y.to_bits() }
}

fn path(count: usize) -> Mesh {
    let mut mesh = Mesh::default();
    let points: Vec<Point> = (0..count).map(|i| p(i as f32, 0.0)).collect();
    mesh.add_loop(&points, false);
    mesh.edges.pop();
    mesh
}

#[test]
fn decimate_removes_every_second_vertex_of_a_chain() {
    let mut mesh = path(5);
    let kept = mesh.decimate(&[0, 1, 2, 3, 4]);
    assert_eq!(kept, vec![0, 1, 2]);
    assert_eq!(mesh.vertices, vec![p(0.0, 0.0), p(2.0, 0.0), p(4.0, 0.0)]);
    assert_eq!(mesh.edges, vec![[0, 1], [1, 2]]);
}

#[test]
fn decimate_leaves_small_loops_alone() {
    let mut mesh = Mesh::default();
    mesh.add_loop(&[p(0.0, 0.0), p(1.0, 0.0), p(1.0, 1.0), p(0.0, 1.0)], false);
    let kept = mesh.decimate(&[0, 1, 2, 3]);
    assert_eq!(kept, vec![0, 1, 2, 3]);
    assert_eq!(mesh.vertices.len(), 4);
}

#[test]
fn decimate_halves_a_larger_loop() {
    let mut mesh = Mesh::default();
    let points: Vec<Point> = (0..6).map(|i| p(i as f32, 0.0)).collect();
    mesh.add_loop(&points, false);
    let kept = mesh.decimate(&[0, 1, 2, 3, 4, 5]);
    assert_eq!(mesh.vertices.len(), 3);
    assert_eq!(kept.len(), 3);
    assert_eq!(mesh.edges.len(), 3);
}

#[test]
fn decimate_undoes_a_subdivision() {
    let mut mesh = path(3);
    let added = mesh.subdivide(&[0, 1, 2], &[p(0.5, 0.0), p(1.5, 0.0)]);
    assert_eq!(added, vec![3, 4]);
    let kept = mesh.decimate(&[0, 1, 2, 3, 4]);
    assert_eq!(kept, vec![0, 1, 2]);
    assert_eq!(mesh.vertices, vec![p(0.0, 0.0), p(1.0, 0.0), p(2.0, 0.0)]);
}

#[test]
fn space_chains_run_between_chain_ends() {
    let mesh = path(5);
    assert_eq!(mesh.space_chains(&[0, 1, 2, 3, 4]), vec![vec![0, 1, 2, 3, 4]]);
    assert_eq!(mesh.space_chains(&[1, 2, 3]), vec![vec![1, 2, 3]]);
    assert!(mesh.space_chains(&[0, 1]).is_empty());
}

#[test]
fn clicks_select_vertices() {
    let mut selection = vec![];
    assert_eq!(select(&mut selection, Some(3), false), Some(None));
    assert_eq!(selection, vec![3]);
    assert_eq!(select(&mut selection, Some(5), true), Some(None));
    assert_eq!(selection, vec![3, 5]);
    assert_eq!(select(&mut selection, Some(3), false), Some(Some(3)));
    assert_eq!(selection, vec![3, 5]);
    assert_eq!(select(&mut selection, Some(3), true), None);
    assert_eq!(selection, vec![5]);
    assert_eq!(select(&mut selection, None, true), None);
    assert_eq!(selection, vec![5]);
    assert_eq!(select(&mut selection, None, false), None);
    assert!(selection.is_empty());
}

#[test]
fn clicks_select_faces() {
    let mut selection = vec![1];
    assert!(select_face(&mut selection, &[1, 2, 3], true));
    assert_eq!(selection, vec![1, 2, 3]);
    let mut selection = vec![1, 2, 3, 4];
    assert!(!select_face(&mut selection, &[1, 2], true));
    assert_eq!(selection, vec![3, 4]);
    assert!(select_face(&mut selection, &[0, 9], false));
    assert_eq!(selection, vec![0, 9]);
    extend_selection(&mut selection, &[9, 8, 8]);
    assert_eq!(selection, vec![0, 9, 8]);
}

#[test]
fn layers_select_their_vertices() {
    let mut mesh = path(3);
    mesh.add_vertex(p(9.0, 9.0));
    let mut selection = vec![3];
    select_layer(&mut selection, &mesh, 1, false);
    assert_eq!(selection, vec![0, 1, 2]);
    let mut selection = vec![3];
    select_layer(&mut selection, &mesh, 1, true);
    assert_eq!(selection, vec![3, 0, 1, 2]);
    let mut selection = vec![0, 3];
    select_layer(&mut selection, &mesh, 1, true);
    assert_eq!(selection, vec![3]);
}

#[test]
fn typed_angles() {
    let mut typed = Vec::new();
    type_char(&mut typed, '5');
    type_char(&mut typed, '.');
    type_char(&mut typed, '.');
    type_char(&mut typed, '2');
    assert_eq!(typed, b"5.2");
    type_char(&mut typed, '-');
    assert_eq!(typed, b"-5.2");
    type_char(&mut typed, 'x');
    type_char(&mut typed, '-');
    assert_eq!(typed, b"5.2");
}

#[test]
fn axis_locks() {
    assert_eq!(toggle_axis(None, Axis::X), Some(Axis::X));
    assert_eq!(toggle_axis(Some(Axis::X), Axis::X), None);
    assert_eq!(toggle_axis(Some(Axis::Y), Axis::X), Some(Axis::X));
    assert_eq!(free_axes(false, None), (true, true));
    assert_eq!(free_axes(false, Some(Axis::X)), (true, false));
    assert_eq!(free_axes(true, Some(Axis::X)), (false, true));
    assert_eq!(free_axes(true, Some(Axis::Y)), (true, false));
}

#[test]
fn shift_clicking_a_vertex_twice_restores_the_selection() {
    let mut selection = vec![3, 1];
    assert_eq!(kricon::selection::select(&mut selection, Some(5), true), Some(None));
    assert_eq!(selection, vec![3, 1, 5]);
    assert_eq!(kricon::selection::select(&mut selection, Some(5), true), None);
    assert_eq!(selection, vec![3, 1]);
}

#[test]
fn typing_minus_twice_restores_the_angle() {
    let mut typed = b"45".to_vec();
    type_char(&mut typed, '-');
    assert_eq!(typed, b"-45".to_vec());
    type_char(&mut typed, '-');
    assert_eq!(typed, b"45".to_vec());
}

#[test]
fn the_same_axis_key_twice_unlocks() {
    assert_eq!(toggle_axis(toggle_axis(None, Axis::Y), Axis::Y), None);
    assert_eq!(toggle_axis(Some(Axis::X), Axis::Y), Some(Axis::Y));
}

#[test]
fn decimate_undoes_a_subdivision_of_a_loop() {
    let mut mesh = Mesh::default();
    let corners = [p(0.0, 0.0), p(2.0, 0.0), p(2.0, 2.0), p(0.0, 2.0)];
    mesh.add_loop(&corners, false);
    let midpoints = [p(1.0, 0.0), p(2.0, 1.0), p(1.0, 2.0), p(0.0, 1.0)];
    let added = mesh.subdivide(&[0, 1, 2, 3], &midpoints);
    assert_eq!(added, vec![4, 5, 6, 7]);
    assert_eq!(mesh.vertices.len(), 8);
    let kept = mesh.decimate(&[0, 1, 2, 3, 4, 5, 6, 7]);
    assert_eq!(kept, vec![0, 1, 2, 3]);
    assert_eq!(mesh.vertices, corners.to_vec());
    assert_eq!(mesh.edges.len(), 4);
}

#[test]
fn edge_loops_follow_the_turns_both_ways() {
    let mesh = path(3);
    let turns = vec![vec![None], vec![Some(2), Some(0)], vec![None]];
    assert_eq!(mesh.edge_loops(&[0, 1], &turns), vec![1, 2, 0]);
    assert!(mesh.edge_loops(&[0, 2], &turns).is_empty());
}

#[test]
fn edge_loops_stop_where_they_began() {
    let mut mesh = Mesh::default();
    mesh.add_loop(&[p(0.0, 0.0), p(1.0, 0.0), p(1.0, 1.0), p(0.0, 1.0)], false);
    let lists = mesh.neighbours();
    let turns: Vec<Vec<Option<usize>>> = lists
        .iter()
        .map(|list| list.iter().map(|&prev| list.iter().copied().find(|&next| next != prev)).collect())
        .collect();
    assert_eq!(mesh.edge_loops(&[0, 1], &turns), vec![1, 2, 3, 0, 3, 2]);
}

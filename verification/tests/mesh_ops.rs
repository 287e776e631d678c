use kricon::mesh::{Layer, Mesh, Point, Rgba};

fn p(x: f32, y: f32) -> Point {
    Point { x: x.to_bits(), y: y.to_bits() }
}

fn triangle() -> Mesh {
    let mut mesh = Mesh::default();
    mesh.add_loop(&[p(0.0, 0.0), p(1.0, 0.0), p(0.0, 1.0)], false);
    mesh
}

fn square() -> Mesh {
    let mut mesh = Mesh::default();
    mesh.add_loop(&[p(0.0, 0.0), p(1.0, 0.0), p(1.0, 1.0), p(0.0, 1.0)], false);
    mesh
}

fn ids(mesh: &Mesh) -> Vec<u32> {
    mesh.layers.iter().map(|layer| layer.id).collect()
}

#[test]
fn add_loop_closes_the_points_on_a_new_layer() {
    let mesh = triangle();
    assert_eq!(mesh.vertices, vec![p(0.0, 0.0), p(1.0, 0.0), p(0.0, 1.0)]);
    assert_eq!(mesh.edges, vec![[0, 1], [1, 2], [2, 0]]);
    assert_eq!(ids(&mesh), vec![1]);
    assert_eq!(mesh.vertex_layers, vec![1, 1, 1]);
    assert!(!mesh.layers[0].curve);
    assert_eq!(mesh.layers[0].name, "");
}

#[test]
fn add_loop_returns_the_new_indices_and_marks_curves() {
    let mut mesh = triangle();
    let added = mesh.add_loop(&[p(5.0, 5.0), p(6.0, 5.0)], true);
    assert_eq!(added, vec![3, 4]);
    assert_eq!(mesh.edges[3..], [[3, 4], [4, 3]]);
    assert_eq!(ids(&mesh), vec![2, 1]);
    assert!(mesh.layers[0].curve);
    assert_eq!(mesh.vertex_layers, vec![1, 1, 1, 2, 2]);
}

#[test]
fn add_vertex_takes_the_smallest_free_id() {
    let mut mesh = triangle();
    mesh.layers[0].id = 2;
    mesh.vertex_layers = vec![2, 2, 2];
    let index = mesh.add_vertex(p(3.0, 3.0));
    assert_eq!(index, 3);
    assert_eq!(ids(&mesh), vec![1, 2]);
    assert_eq!(mesh.vertex_layers, vec![2, 2, 2, 1]);
}

#[test]
fn add_edge_joins_components_into_the_larger_layer() {
    let mut mesh = triangle();
    mesh.add_vertex(p(3.0, 3.0));
    mesh.add_edge(0, 3);
    assert_eq!(mesh.edges.last(), Some(&[0, 3]));
    assert_eq!(ids(&mesh), vec![1]);
    assert_eq!(mesh.vertex_layers, vec![1, 1, 1, 1]);
}

#[test]
fn add_edge_ignores_loops_and_repeats() {
    let mut mesh = triangle();
    mesh.add_edge(1, 1);
    mesh.add_edge(1, 0);
    assert_eq!(mesh.edges, vec![[0, 1], [1, 2], [2, 0]]);
}

#[test]
fn add_edge_on_a_tie_keeps_the_higher_layer() {
    let mut mesh = Mesh::default();
    let a = mesh.add_vertex(p(0.0, 0.0));
    let b = mesh.add_vertex(p(1.0, 0.0));
    assert_eq!(ids(&mesh), vec![2, 1]);
    mesh.add_edge(a, b);
    assert_eq!(ids(&mesh), vec![2]);
    assert_eq!(mesh.vertex_layers, vec![2, 2]);
}

#[test]
fn extrude_joins_each_copy_to_its_source() {
    let mut mesh = triangle();
    let copies = mesh.extrude(&[0, 1]);
    assert_eq!(copies, vec![3, 4]);
    assert_eq!(mesh.vertices[3], p(0.0, 0.0));
    assert_eq!(mesh.vertices[4], p(1.0, 0.0));
    assert_eq!(mesh.edges, vec![[0, 1], [1, 2], [2, 0], [3, 4], [0, 3], [1, 4]]);
    assert_eq!(mesh.vertex_layers, vec![1, 1, 1, 1, 1]);
}

#[test]
fn duplicate_puts_the_copy_on_a_new_layer_above() {
    let mut mesh = triangle();
    mesh.layers[0].holdout = true;
    mesh.layers[0].name = String::from("shape");
    let copies = mesh.duplicate(&[0, 1, 2]);
    assert_eq!(copies, vec![3, 4, 5]);
    assert_eq!(mesh.edges[3..], [[3, 4], [4, 5], [5, 3]]);
    assert_eq!(ids(&mesh), vec![2, 1]);
    assert!(mesh.layers[0].holdout);
    assert_eq!(mesh.layers[0].name, "");
    assert_eq!(mesh.layers[1].name, "shape");
    assert_eq!(mesh.vertex_layers, vec![1, 1, 1, 2, 2, 2]);
}

#[test]
fn duplicate_copies_holes_and_colors_of_enclosed_faces() {
    let mut mesh = triangle();
    let red = Rgba { r: 255, g: 0, b: 0, a: 255 };
    mesh.holes.push(vec![0, 1, 2]);
    mesh.colors.push((vec![0, 1, 2], red));
    mesh.duplicate(&[2, 1, 0]);
    assert_eq!(mesh.holes, vec![vec![0, 1, 2], vec![3, 4, 5]]);
    assert_eq!(mesh.colors, vec![(vec![0, 1, 2], red), (vec![3, 4, 5], red)]);
    assert_eq!(mesh.edges[3..], [[5, 4], [4, 3], [3, 5]]);
}

#[test]
fn remove_vertices_closes_up_the_indices() {
    let mut mesh = square();
    mesh.holes.push(vec![0, 1, 2, 3]);
    mesh.remove_vertices(vec![1]);
    assert_eq!(mesh.vertices, vec![p(0.0, 0.0), p(1.0, 1.0), p(0.0, 1.0)]);
    assert_eq!(mesh.edges, vec![[1, 2], [2, 0]]);
    assert_eq!(mesh.holes, vec![vec![0, 1, 2]]);
    assert_eq!(mesh.vertex_layers, vec![1, 1, 1]);
}

#[test]
fn remove_vertices_drops_faces_left_with_two_vertices() {
    let mut mesh = triangle();
    mesh.colors.push((vec![0, 1, 2], Rgba { r: 1, g: 2, b: 3, a: 4 }));
    mesh.remove_vertices(vec![2]);
    assert!(mesh.colors.is_empty());
    assert_eq!(mesh.edges, vec![[0, 1]]);
}

#[test]
fn remove_vertices_splits_layers_by_component() {
    let mut mesh = square();
    mesh.remove_vertices(vec![3, 1]);
    assert_eq!(mesh.vertices, vec![p(0.0, 0.0), p(1.0, 1.0)]);
    assert!(mesh.edges.is_empty());
    assert_eq!(ids(&mesh), vec![1, 2]);
    assert_eq!(mesh.vertex_layers, vec![1, 2]);
}

#[test]
fn dissolve_bridges_a_vertex_with_two_neighbours() {
    let mut mesh = square();
    mesh.dissolve(vec![1]);
    assert_eq!(mesh.vertices.len(), 3);
    assert_eq!(mesh.edges, vec![[1, 2], [2, 0], [0, 1]]);
}

#[test]
fn dissolve_adds_no_repeated_edge() {
    let mut mesh = triangle();
    mesh.dissolve(vec![1]);
    assert_eq!(mesh.edges, vec![[1, 0]]);
}

#[test]
fn merge_moves_the_smallest_vertex_and_drops_the_rest() {
    let mut mesh = square();
    let target = mesh.merge(&[2, 1], p(0.5, 0.5));
    assert_eq!(target, 1);
    assert_eq!(mesh.vertices, vec![p(0.0, 0.0), p(0.5, 0.5), p(0.0, 1.0)]);
    assert_eq!(mesh.edges, vec![[0, 1], [1, 2], [2, 0]]);
}

#[test]
fn subdivide_splits_edges_between_selected_vertices() {
    let mut mesh = triangle();
    mesh.holes.push(vec![0, 1, 2]);
    assert_eq!(mesh.subdivision_targets(&[0, 1]), vec![0]);
    let added = mesh.subdivide(&[0, 1], &[p(0.5, 0.0)]);
    assert_eq!(added, vec![3]);
    assert_eq!(mesh.vertices[3], p(0.5, 0.0));
    assert_eq!(mesh.edges, vec![[0, 3], [1, 2], [2, 0], [3, 1]]);
    assert_eq!(mesh.holes, vec![vec![0, 1, 2, 3]]);
    assert_eq!(mesh.vertex_layers, vec![1, 1, 1, 1]);
}

#[test]
fn remove_images_keeps_the_others_in_order() {
    let mut mesh = Mesh::default();
    for texture in 0..4u64 {
        mesh.images.push(kricon::mesh::Image { texture, source: vec![texture as u8], corners: [p(0.0, 0.0); 4] });
    }
    mesh.remove_images(vec![2, 0]);
    let textures: Vec<u64> = mesh.images.iter().map(|image| image.texture).collect();
    assert_eq!(textures, vec![1, 3]);
}

#[test]
fn sync_layers_gives_a_split_component_a_layer_below() {
    let mut mesh = Mesh::default();
    mesh.vertices = vec![p(0.0, 0.0), p(1.0, 0.0)];
    mesh.layers = vec![Layer { id: 4, curve: true, holdout: false, name: String::from("a") }];
    mesh.vertex_layers = vec![4, 4];
    mesh.sync_layers(false);
    assert_eq!(ids(&mesh), vec![4, 1]);
    assert!(mesh.layers[1].curve);
    assert_eq!(mesh.vertex_layers, vec![4, 1]);
}

#[test]
fn sync_layers_drops_unused_layers() {
    let mut mesh = triangle();
    mesh.layers.push(Layer { id: 9, curve: false, holdout: false, name: String::new() });
    mesh.sync_layers(true);
    assert_eq!(ids(&mesh), vec![1]);
}

#[test]
fn components_and_linked_follow_edges() {
    let mut mesh = triangle();
    mesh.add_vertex(p(3.0, 3.0));
    let (labels, count) = mesh.components();
    assert_eq!(count, 2);
    assert_eq!(labels, vec![0, 0, 0, 1]);
    assert_eq!(mesh.linked(&[1]), vec![0, 1, 2]);
    assert_eq!(mesh.linked(&[3]), vec![3]);
}

#[test]
fn layer_queries_and_edits() {
    let mut mesh = triangle();
    mesh.add_vertex(p(3.0, 3.0));
    assert_eq!(mesh.layer(3), 2);
    assert!(!mesh.is_curve(0));
    assert_eq!(mesh.layer_vertices(1), vec![0, 1, 2]);
    mesh.rename_layer(1, String::from("base"));
    assert_eq!(mesh.layers[1].name, "base");
    mesh.move_layer(1, 0);
    assert_eq!(ids(&mesh), vec![1, 2]);
    mesh.toggle_holdout(&[0]);
    assert!(mesh.layers[0].holdout);
    assert!(!mesh.layers[1].holdout);
    mesh.toggle_holdout(&[0]);
    assert!(!mesh.layers[0].holdout);
}

#[test]
fn linking_the_linked_vertices_again_finds_nothing_more() {
    let mut mesh = triangle();
    mesh.add_loop(&[p(5.0, 5.0), p(6.0, 5.0), p(6.0, 6.0)], false);
    let once = mesh.linked(&[4]);
    assert_eq!(once, vec![3, 4, 5]);
    assert_eq!(mesh.linked(&once), once);
    assert_eq!(mesh.linked(&[]), Vec::<usize>::new());
}

#[test]
fn splitting_a_component_gives_the_second_part_a_new_layer_below() {
    let mut mesh = Mesh::default();
    mesh.add_vertex(p(0.0, 0.0));
    mesh.add_vertex(p(1.0, 0.0));
    mesh.add_edge(0, 1);
    assert_eq!(ids(&mesh), vec![2]);
    assert_eq!(mesh.vertex_layers, vec![2, 2]);
    mesh.add_vertex(p(2.0, 0.0));
    assert_eq!(ids(&mesh), vec![1, 2]);
    mesh.add_edge(1, 2);
    assert_eq!(ids(&mesh), vec![2]);
    assert_eq!(mesh.vertex_layers, vec![2, 2, 2]);
    mesh.remove_vertices(vec![1]);
    assert_eq!(ids(&mesh), vec![2, 1]);
    assert_eq!(mesh.vertex_layers, vec![2, 1]);
}

#[test]
fn layer_rows_count_vertices_and_selected_ones() {
    let mut mesh = triangle();
    mesh.add_vertex(p(3.0, 3.0));
    assert_eq!(ids(&mesh), vec![2, 1]);
    assert_eq!(mesh.layer_rows(&[0, 3, 1]), vec![(2, 1, 1), (1, 2, 3)]);
    assert_eq!(mesh.layer_rows(&[]), vec![(2, 0, 1), (1, 0, 3)]);
}

#[test]
fn layer_titles_fall_back_to_the_kind_and_id() {
    let named = Layer { id: 3, curve: true, holdout: false, name: String::from("Rim") };
    let curve = Layer { id: 4, curve: true, holdout: true, name: String::new() };
    let shape = Layer { id: 5, curve: false, holdout: false, name: String::new() };
    assert_eq!(named.title(), kricon::layers::Title::Named);
    assert_eq!(curve.title(), kricon::layers::Title::Curve(4));
    assert_eq!(shape.title(), kricon::layers::Title::Shape(5));
}

#[test]
fn linked_reads_only_the_edges() {
    let mut mesh = Mesh::default();
    mesh.vertices = vec![p(0.0, 0.0), p(1.0, 0.0), p(2.0, 0.0), p(3.0, 0.0)];
    mesh.edges = vec![[0, 1], [2, 3]];
    assert!(mesh.edges_fit());
    assert_eq!(mesh.linked(&[1]), vec![0, 1]);
    assert_eq!(mesh.linked(&[3, 0]), vec![0, 1, 2, 3]);
    assert_eq!(mesh.linked(&[]), Vec::<usize>::new());
}

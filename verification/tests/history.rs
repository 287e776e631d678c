use kricon::history::{History, Splice};
use kricon::mesh::{numbers_equal, Mesh, Point};

fn p(x: f32, y: f32) -> Point {
    Point { x: x.to_bits(), y: y.to_bits() }
}

#[test]
fn splice_keeps_only_the_changed_middle() {
    let before: Vec<u32> = vec![1, 2, 3, 4];
    let after: Vec<u32> = vec![1, 9, 4];
    let splice = Splice::new(&before, &after);
    assert!(!splice.is_empty());
    let mut list = before.clone();
    splice.apply(&mut list, true);
    assert_eq!(list, after);
    splice.apply(&mut list, false);
    assert_eq!(list, before);
}

#[test]
fn splice_of_equal_lists_is_empty() {
    let list: Vec<u32> = vec![5, 6];
    let splice = Splice::new(&list, &list);
    assert!(splice.is_empty());
    let mut copy = list.clone();
    splice.apply(&mut copy, true);
    assert_eq!(copy, list);
}

#[test]
fn splice_handles_growth_at_the_end() {
    let before: Vec<u32> = vec![7];
    let after: Vec<u32> = vec![7, 8, 9];
    let splice = Splice::new(&before, &after);
    let mut list = before.clone();
    splice.apply(&mut list, true);
    assert_eq!(list, after);
}

#[test]
fn commit_then_undo_then_redo() {
    let mut mesh = Mesh::default();
    let mut history = History::new(&mesh);
    assert_eq!(history.revision(), 0);
    mesh.add_vertex(p(1.0, 2.0));
    history.commit(&mesh, vec![], &vec![0]);
    assert_eq!(history.revision(), 1);
    assert_eq!(history.checkpoint().vertices, vec![p(1.0, 2.0)]);

    let mut selection = vec![0];
    history.undo(&mut mesh, &mut selection);
    assert!(mesh.vertices.is_empty());
    assert!(mesh.layers.is_empty());
    assert!(selection.is_empty());
    assert_eq!(history.revision(), 0);

    history.redo(&mut mesh, &mut selection);
    assert_eq!(mesh.vertices, vec![p(1.0, 2.0)]);
    assert_eq!(selection, vec![0]);
    assert_eq!(history.revision(), 1);
}

#[test]
fn commit_of_an_unchanged_mesh_does_nothing() {
    let mesh = Mesh::default();
    let mut history = History::default();
    history.commit(&mesh, vec![], &vec![]);
    assert_eq!(history.revision(), 0);
}

#[test]
fn undo_with_nothing_to_undo_changes_nothing() {
    let mut mesh = Mesh::default();
    let mut history = History::new(&mesh);
    let mut selection = vec![3];
    history.undo(&mut mesh, &mut selection);
    assert_eq!(selection, vec![3]);
    assert!(mesh.vertices.is_empty());
}

#[test]
fn revert_restores_the_checkpoint() {
    let mut mesh = Mesh::default();
    let history = History::new(&mesh);
    mesh.add_vertex(p(0.0, 0.0));
    history.revert(&mut mesh);
    assert!(mesh.vertices.is_empty());
}

#[test]
fn a_new_commit_forgets_what_could_be_redone() {
    let mut mesh = Mesh::default();
    let mut history = History::new(&mesh);
    let mut selection = vec![];
    mesh.add_vertex(p(0.0, 0.0));
    history.commit(&mesh, vec![], &vec![]);
    history.undo(&mut mesh, &mut selection);
    mesh.add_vertex(p(5.0, 5.0));
    history.commit(&mesh, vec![], &vec![]);
    assert_eq!(history.revision(), 2);
    history.redo(&mut mesh, &mut selection);
    assert_eq!(mesh.vertices, vec![p(5.0, 5.0)]);
}

#[test]
fn only_the_last_hundred_changes_are_kept() {
    let mut mesh = Mesh::default();
    let mut history = History::new(&mesh);
    let mut selection = vec![];
    for step in 0..101 {
        mesh.add_vertex(p(step as f32, 0.0));
        history.commit(&mesh, vec![], &vec![]);
    }
    assert_eq!(history.revision(), 101);
    for _ in 0..101 {
        history.undo(&mut mesh, &mut selection);
    }
    assert_eq!(mesh.vertices.len(), 1);
    assert_eq!(history.revision(), 1);
}

#[test]
fn diff_and_apply_round_trip() {
    let mut before = Mesh::default();
    before.add_loop(&[p(0.0, 0.0), p(1.0, 0.0), p(0.0, 1.0)], false);
    let mut after = Mesh::default();
    after.add_loop(&[p(0.0, 0.0), p(1.0, 0.0), p(0.0, 1.0)], false);
    after.extrude(&[0]);
    let change = before.diff(&after);
    assert!(!change.is_empty());
    let mut mesh = Mesh::default();
    mesh.add_loop(&[p(0.0, 0.0), p(1.0, 0.0), p(0.0, 1.0)], false);
    mesh.apply(&change, true);
    assert_eq!(mesh.vertices, after.vertices);
    assert_eq!(mesh.edges, after.edges);
    mesh.apply(&change, false);
    assert_eq!(mesh.edges, before.edges);
    assert!(before.diff(&before).is_empty());
}

#[test]
fn undo_fits_only_a_mesh_long_enough() {
    let empty = Mesh::default();
    let mut history = History::new(&empty);
    assert!(history.can_undo(&empty) && history.can_redo(&empty));
    let mut mesh = Mesh::default();
    mesh.add_vertex(p(1.0, 2.0));
    history.commit(&mesh, vec![], &vec![0]);
    assert!(history.can_undo(&mesh));
    assert!(!history.can_undo(&empty));
    let splice = Splice::new(&[1u32, 2, 3], &[1u32]);
    assert!(splice.fits_len(3, true) && !splice.fits_len(2, true) && splice.fits_len(1, false));
}

#[test]
fn positions_compare_as_numbers() {
    let zero = vec![p(0.0, 1.0)];
    let negative_zero = vec![p(-0.0, 1.0)];
    assert!(Splice::new(&zero, &negative_zero).is_empty());
    let nan = vec![p(f32::NAN, 1.0)];
    assert!(!Splice::new(&nan, &nan).is_empty());
    assert!(!Splice::new(&zero, &vec![p(0.5, 1.0)]).is_empty());
}

#[test]
fn commit_ignores_the_sign_of_zero() {
    let mut mesh = Mesh::default();
    mesh.add_vertex(p(0.0, 1.0));
    let mut history = History::new(&mesh);
    mesh.vertices[0] = p(-0.0, 1.0);
    history.commit(&mesh, vec![], &vec![]);
    assert_eq!(history.revision(), 0);
    assert_eq!(history.checkpoint().vertices, vec![p(0.0, 1.0)]);
}

#[test]
fn commit_records_a_nan_position_every_time() {
    let mut mesh = Mesh::default();
    mesh.add_vertex(p(f32::NAN, 0.0));
    let mut history = History::new(&mesh);
    history.commit(&mesh, vec![], &vec![]);
    assert_eq!(history.revision(), 1);
    let mut selection = vec![];
    history.undo(&mut mesh, &mut selection);
    assert_eq!(mesh.vertices.len(), 1);
    assert_eq!(history.revision(), 0);
}

#[test]
fn commit_keeps_the_checkpoint_ends_that_agree() {
    let mut mesh = Mesh::default();
    mesh.add_vertex(p(0.0, 0.0));
    let mut history = History::new(&mesh);
    mesh.vertices[0] = p(-0.0, 0.0);
    mesh.add_vertex(p(2.0, 3.0));
    history.commit(&mesh, vec![], &vec![1]);
    assert_eq!(history.revision(), 1);
    assert_eq!(history.checkpoint().vertices, vec![p(0.0, 0.0), p(2.0, 3.0)]);
}

#[test]
fn numbers_equal_follows_float_equality() {
    let cases: [(f32, f32); 7] = [
        (1.5, 1.5),
        (1.5, 2.0),
        (0.0, -0.0),
        (f32::NAN, f32::NAN),
        (f32::NAN, 1.0),
        (f32::INFINITY, f32::INFINITY),
        (f32::INFINITY, f32::NEG_INFINITY),
    ];
    for (a, b) in cases {
        assert_eq!(numbers_equal(a.to_bits(), b.to_bits()), a == b, "{} {}", a, b);
    }
    assert!(!numbers_equal(0x7fc0_0001, 0x7fc0_0001));
}

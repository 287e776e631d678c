use kricon::import::{parse_paint, Paint, TagStep, Walk};
use kricon::mesh::Rgba;
use kricon::mesh::{Mesh, Point};
use kricon::settings::{parse_flag, settings_entries};

fn p(x: f32, y: f32) -> Point {
    Point { x: x.to_bits(), y: y.to_bits() }
}

fn text<'a>(source: &'a [u8], span: (usize, usize)) -> &'a [u8] {
    &source[span.0..span.1]
}

#[test]
fn walk_tracks_groups_and_skipped_elements() {
    let mut walk = Walk::new();
    assert_eq!(walk.step(b"svg viewBox='0 0 1 1'"), TagStep::Open);
    assert_eq!(walk.step(b"defs"), TagStep::Skip);
    assert_eq!(walk.step(b"path d='M0 0'"), TagStep::Skip);
    assert_eq!(walk.skipped, 1);
    assert_eq!(walk.step(b"/defs"), TagStep::Skip);
    assert_eq!(walk.skipped, 0);
    assert_eq!(walk.step(b"g fill='red'"), TagStep::Open);
    assert_eq!(walk.depth, 3);
    assert_eq!(walk.step(b"path d='M0 0'/"), TagStep::Shape);
    assert_eq!(walk.step(b"g/"), TagStep::Skip);
    assert_eq!(walk.step(b"/g"), TagStep::Close);
    assert_eq!(walk.step(b"/svg"), TagStep::Close);
    assert_eq!(walk.step(b"/svg"), TagStep::Skip);
    assert_eq!(walk.depth, 1);
    assert_eq!(walk.step(b"mask/"), TagStep::Skip);
    assert_eq!(walk.skipped, 0);
    assert_eq!(walk.step(b"/clipPath"), TagStep::Skip);
    assert_eq!(walk.skipped, 0);
}

#[test]
fn settings_lines_split_at_the_first_equals_sign() {
    let source = b"workspace = /home/a=b \r\nface_opacity=0.5\n\njunk\nshow_images= true";
    let entries: Vec<(&[u8], &[u8])> = settings_entries(source)
        .into_iter()
        .map(|(key, value)| (text(source, key), text(source, value)))
        .collect();
    assert_eq!(entries, vec![
        (&b"workspace"[..], &b"/home/a=b"[..]),
        (b"face_opacity", b"0.5"),
        (b"show_images", b"true"),
    ]);
    assert!(settings_entries(b"").is_empty());
}

#[test]
fn flags_are_exactly_true_or_false() {
    assert_eq!(parse_flag(b"true"), Some(true));
    assert_eq!(parse_flag(b"false"), Some(false));
    assert_eq!(parse_flag(b"True"), None);
    assert_eq!(parse_flag(b""), None);
}

#[test]
fn inset_copies_the_boundary_inward() {
    let mut mesh = Mesh::default();
    mesh.add_loop(&[p(0.0, 0.0), p(1.0, 0.0), p(1.0, 1.0), p(0.0, 1.0)], false);
    mesh.holes.push(vec![0, 1, 2, 3]);
    let faces = vec![vec![0, 1, 2, 3]];
    let (inner, corners) = mesh.inset(&faces, &[0, 1, 2, 3]);
    assert_eq!(inner, vec![4, 5, 6, 7]);
    assert_eq!(corners, vec![(0, Some(3), 1), (1, Some(0), 2), (2, Some(1), 3), (3, Some(2), 0)]);
    assert_eq!(mesh.vertices.len(), 8);
    assert_eq!(mesh.vertices[4], p(0.0, 0.0));
    assert_eq!(mesh.vertex_layers, vec![1; 8]);
    assert_eq!(mesh.edges, vec![
        [0, 1], [1, 2], [2, 3], [3, 0],
        [4, 5], [5, 6], [6, 7], [7, 4],
        [0, 4], [1, 5], [2, 6], [3, 7],
    ]);
    assert_eq!(mesh.holes, vec![vec![4, 5, 6, 7]]);
}

#[test]
fn inset_of_two_faces_moves_their_shared_edge() {
    let mut mesh = Mesh::default();
    mesh.add_loop(&[p(0.0, 0.0), p(1.0, 0.0), p(2.0, 0.0), p(2.0, 1.0), p(1.0, 1.0), p(0.0, 1.0)], false);
    mesh.edges.push([1, 4]);
    let faces = vec![vec![0, 1, 4, 5], vec![1, 2, 3, 4]];
    let (inner, corners) = mesh.inset(&faces, &[0, 1, 2, 3, 4, 5]);
    assert_eq!(inner, vec![6, 7, 8, 9, 10, 11]);
    assert_eq!(corners[0], (0, Some(5), 1));
    assert_eq!(corners[1], (4, Some(3), 5));
    assert_eq!(corners[3], (1, Some(0), 2));
    assert_eq!(mesh.edges[6], [9, 7]);
}

#[test]
fn paint_names_and_hex_codes() {
    assert_eq!(parse_paint(b"none"), Paint::Nothing);
    assert_eq!(parse_paint(b"transparent"), Paint::Nothing);
    assert_eq!(parse_paint(b"black"), Paint::Color(Rgba { r: 0, g: 0, b: 0, a: 255 }));
    assert_eq!(parse_paint(b"white"), Paint::Color(Rgba { r: 255, g: 255, b: 255, a: 255 }));
    assert_eq!(parse_paint(b"#ff0000"), Paint::Color(Rgba { r: 255, g: 0, b: 0, a: 255 }));
    assert_eq!(parse_paint(b"#0f0"), Paint::Color(Rgba { r: 0, g: 255, b: 0, a: 255 }));
    assert_eq!(parse_paint(b"#00000000"), Paint::Color(Rgba { r: 0, g: 0, b: 0, a: 0 }));
}

#[test]
fn unknown_paint_falls_back_to_the_default_colour() {
    assert_eq!(parse_paint(b"red"), Paint::Default);
    assert_eq!(parse_paint(b"ff0000"), Paint::Default);
    assert_eq!(parse_paint(b"#12"), Paint::Default);
    assert_eq!(parse_paint(b"#gg0000"), Paint::Default);
    assert_eq!(parse_paint(b""), Paint::Default);
    assert_eq!(parse_paint(&[0xff, 0xfe]), Paint::Default);
}

#[test]
fn paint_with_alpha_is_premultiplied() {
    assert_eq!(parse_paint(b"#ff000080"), Paint::Color(Rgba { r: 128, g: 0, b: 0, a: 128 }));
    assert_eq!(parse_paint(b"#f008"), Paint::Color(Rgba { r: 136, g: 0, b: 0, a: 136 }));
    assert_eq!(parse_paint(b"#12345600"), Paint::Color(Rgba { r: 0, g: 0, b: 0, a: 0 }));
    assert_eq!(parse_paint(b"#12345"), Paint::Default);
}

#[test]
fn paint_reads_a_leading_plus_as_zero() {
    assert_eq!(parse_paint(b"#+f0"), Paint::Color(Rgba { r: 0, g: 255, b: 0, a: 255 }));
    assert_eq!(parse_paint("#f\u{e9}0".as_bytes()), Paint::Default);
}

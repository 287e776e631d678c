use kricon::codec::{decode, encode, is_valid, Meta};
use kricon::mesh::{Image, Mesh, Point, Rgba};

fn p(x: f32, y: f32) -> Point {
    Point { x: x.to_bits(), y: y.to_bits() }
}

fn meta() -> Meta {
    Meta { offset_x: 1.5f32.to_bits(), offset_y: (-2.0f32).to_bits(), scale: 3.0f32.to_bits() }
}

#[test]
fn empty_mesh_encodes_to_the_header_and_empty_sections() {
    let bytes = encode(&Mesh::default(), &meta());
    assert_eq!(&bytes[..8], &[b'K', b'R', b'I', 0, 1, 0, 0, 0]);
    assert_eq!(&bytes[8..12], b"META");
    assert_eq!(&bytes[12..20], &12u64.to_le_bytes());
    assert_eq!(&bytes[20..24], &1.5f32.to_le_bytes());
    assert_eq!(&bytes[32..36], b"VERT");
    assert_eq!(bytes.len(), 8 + 24 + 7 * 16);
}

#[test]
fn encode_then_decode_gives_the_mesh_back() {
    let mut mesh = Mesh::default();
    mesh.add_loop(&[p(0.0, 0.0), p(1.0, 0.0), p(0.0, 1.0)], true);
    mesh.layers[0].name = String::from("é layer");
    mesh.holes.push(vec![0, 1, 2]);
    mesh.colors.push((vec![0, 1, 2], Rgba { r: 10, g: 20, b: 30, a: 40 }));
    mesh.images.push(Image { texture: 7, source: vec![1, 2, 3], corners: [p(0.0, 0.0), p(1.0, 0.0), p(1.0, 1.0), p(0.0, 1.0)] });
    let bytes = encode(&mesh, &meta());
    let (decoded, stored, sources) = decode(&bytes).expect("a valid file");
    assert_eq!(decoded.vertices, mesh.vertices);
    assert_eq!(decoded.edges, mesh.edges);
    assert_eq!(decoded.vertex_layers, mesh.vertex_layers);
    assert_eq!(decoded.layers.len(), 1);
    assert_eq!(decoded.layers[0].name, "é layer");
    assert!(decoded.layers[0].curve);
    assert_eq!(decoded.holes, mesh.holes);
    assert_eq!(decoded.colors, mesh.colors);
    assert!(decoded.images.is_empty());
    assert_eq!(stored, Some(meta()));
    assert_eq!(sources, vec![(mesh.images[0].corners, vec![1, 2, 3])]);
}

#[test]
fn decode_refuses_other_files() {
    assert!(decode(b"").is_none());
    assert!(decode(b"KRI\0\x02\0\0\0").is_none());
    assert!(decode(b"PNG\0\x01\0\0\0").is_none());
    let mut bytes = encode(&Mesh::default(), &meta());
    bytes.truncate(bytes.len() - 1);
    assert!(decode(&bytes).is_none());
}

#[test]
fn decode_skips_unknown_sections() {
    let mut bytes = encode(&Mesh::default(), &meta());
    bytes.extend_from_slice(b"XTRA");
    bytes.extend_from_slice(&2u64.to_le_bytes());
    bytes.extend_from_slice(&[9, 9]);
    assert!(decode(&bytes).is_some());
}

#[test]
fn decode_refuses_meshes_that_are_not_well_formed() {
    let mut mesh = Mesh::default();
    mesh.add_loop(&[p(0.0, 0.0), p(1.0, 0.0)], false);
    mesh.edges.push([0, 5]);
    assert!(!is_valid(&mesh));
    assert!(decode(&encode(&mesh, &meta())).is_none());
}

#[test]
fn a_file_without_meta_decodes_without_it() {
    let bytes = encode(&Mesh::default(), &meta());
    let mut stripped = bytes[..8].to_vec();
    stripped.extend_from_slice(&bytes[32..]);
    let (_, stored, _) = decode(&stripped).expect("a valid file");
    assert_eq!(stored, None);
}

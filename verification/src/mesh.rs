use crate::element::Element;
use crate::history::{
    agree_all, edit_between, match_all, edit_holds, fits, lemma_edit_between_holds, lemma_edit_holds,
    lemma_edit_round_trip, patched, views, Edit, Splice,
};
use vstd::prelude::*;

verus! {

/// A position in the plane, each coordinate held as the bit pattern of an
/// IEEE-754 single-precision number.
///
/// The mesh logic never computes with positions; it only stores, copies and
/// compares them. Positions compare as the numbers they encode (see `same_number`).
#[derive(Clone, Copy, PartialEq, Eq, Structural, Debug)]
pub struct Point {
    pub x: u32,
    pub y: u32,
}

impl View for Point {
    type V = Point;

    open spec fn view(&self) -> Point {
        *self
    }
}

/// Whether `bits` encodes a NaN: all exponent bits set and a nonzero fraction.
pub open spec fn is_nan(bits: u32) -> bool {
    bits % 0x8000_0000 > 0x7f80_0000
}

/// Whether two bit patterns encode equal numbers: neither is a NaN, and they are the
/// same pattern or both encode zero, whatever its sign.
pub open spec fn same_number(a: u32, b: u32) -> bool {
    &&& !is_nan(a)
    &&& !is_nan(b)
    &&& (a == b || (a % 0x8000_0000 == 0 && b % 0x8000_0000 == 0))
}

/// Whether two bit patterns encode equal numbers (see `same_number`).
pub fn numbers_equal(a: u32, b: u32) -> (equal: bool)
    ensures
        equal == same_number(a, b),
{
    let (ma, mb) = (a % 0x8000_0000, b % 0x8000_0000);
    ma <= 0x7f80_0000 && mb <= 0x7f80_0000 && (a == b || (ma == 0 && mb == 0))
}

impl Element for Point {
    open spec fn agree(a: Point, b: Point) -> bool {
        same_number(a.x, b.x) && same_number(a.y, b.y)
    }

    fn same(&self, other: &Self) -> (equal: bool) {
        numbers_equal(self.x, other.x) && numbers_equal(self.y, other.y)
    }

    fn duplicate(&self) -> (copy: Self) {
        *self
    }
}

/// A colour as premultiplied red, green, blue and alpha bytes.
#[derive(Clone, Copy, PartialEq, Eq, Structural, Debug)]
pub struct Rgba {
    pub r: u8,
    pub g: u8,
    pub b: u8,
    pub a: u8,
}

impl View for Rgba {
    type V = Rgba;

    open spec fn view(&self) -> Rgba {
        *self
    }
}

/// The colour of faces that have none of their own: opaque white.
pub open spec fn spec_face_color() -> Rgba {
    Rgba { r: 255, g: 255, b: 255, a: 255 }
}

/// The colour of faces that have none of their own: opaque white.
pub fn face_color_default() -> (color: Rgba)
    ensures
        color == spec_face_color(),
{
    Rgba { r: 255, g: 255, b: 255, a: 255 }
}

impl Element for (Vec<usize>, Rgba) {
    open spec fn agree(a: (Seq<usize>, Rgba), b: (Seq<usize>, Rgba)) -> bool {
        a == b
    }

    fn same(&self, other: &Self) -> (equal: bool) {
        let equal = crate::element::slices_equal(self.0.as_slice(), other.0.as_slice())
            && self.1 == other.1;
        equal
    }

    fn duplicate(&self) -> (copy: Self) {
        (crate::element::copy_indices(self.0.as_slice()), self.1)
    }
}

/// A layer: a group of vertices drawn together, in the order of the layer list.
pub struct Layer {
    pub id: u32,
    pub curve: bool,
    pub holdout: bool,
    pub name: String,
}

/// What a layer holds, its name taken as characters.
pub struct LayerView {
    pub id: u32,
    pub curve: bool,
    pub holdout: bool,
    pub name: Seq<char>,
}

impl View for Layer {
    type V = LayerView;

    open spec fn view(&self) -> LayerView {
        LayerView { id: self.id, curve: self.curve, holdout: self.holdout, name: self.name@ }
    }
}

impl Element for Layer {
    open spec fn agree(a: LayerView, b: LayerView) -> bool {
        a == b
    }

    fn same(&self, other: &Self) -> (equal: bool) {
        self.id == other.id && self.curve == other.curve && self.holdout == other.holdout
            && self.name == other.name
    }

    fn duplicate(&self) -> (copy: Self) {
        Layer { id: self.id, curve: self.curve, holdout: self.holdout, name: self.name.clone() }
    }
}

/// A reference image placed in the scene: the handle of its texture, its encoded
/// source bytes and its four corners.
pub struct Image {
    pub texture: u64,
    pub source: Vec<u8>,
    pub corners: [Point; 4],
}

/// What an image holds.
pub struct ImageView {
    pub texture: u64,
    pub source: Seq<u8>,
    pub corners: Seq<Point>,
}

impl View for Image {
    type V = ImageView;

    open spec fn view(&self) -> ImageView {
        ImageView { texture: self.texture, source: self.source@, corners: self.corners@ }
    }
}

fn bytes_equal(a: &[u8], b: &[u8]) -> (equal: bool)
    ensures
        equal == (a@ == b@),
{
    if a.len() != b.len() {
        return false;
    }
    let mut i: usize = 0;
    while i < a.len()
        invariant
            a@.len() == b@.len(),
            i <= a@.len(),
            forall|j: int| 0 <= j < i ==> a@[j] == b@[j],
        decreases a@.len() - i,
    {
        if a[i] != b[i] {
            return false;
        }
        i = i + 1;
    }
    assert(a@ =~= b@);
    true
}

/// A fresh vector holding the given bytes.
pub fn copy_bytes(a: &[u8]) -> (copy: Vec<u8>)
    ensures
        copy@ == a@,
{
    let mut copy: Vec<u8> = Vec::new();
    let mut i: usize = 0;
    while i < a.len()
        invariant
            i <= a@.len(),
            copy@ == a@.take(i as int),
        decreases a@.len() - i,
    {
        copy.push(a[i]);
        i = i + 1;
        assert(copy@ =~= a@.take(i as int));
    }
    assert(a@.take(a@.len() as int) =~= a@);
    copy
}

impl Element for Image {
    /// Images agree when they show the same texture from the same source and their
    /// corners agree one by one.
    open spec fn agree(a: ImageView, b: ImageView) -> bool {
        &&& a.texture == b.texture
        &&& a.source == b.source
        &&& agree_all::<Point>(a.corners, b.corners)
    }

    fn same(&self, other: &Self) -> (equal: bool) {
        let mut corners = true;
        let mut i: usize = 0;
        while i < 4
            invariant
                i <= 4,
                corners == (forall|j: int| 0 <= j < i ==> Point::agree(#[trigger] self.corners@[j], other.corners@[j])),
            decreases 4 - i,
        {
            corners = corners && self.corners[i].same(&other.corners[i]);
            i = i + 1;
        }
        self.texture == other.texture && corners && bytes_equal(self.source.as_slice(), other.source.as_slice())
    }

    fn duplicate(&self) -> (copy: Self) {
        let corners = self.corners;
        Image { texture: self.texture, source: copy_bytes(self.source.as_slice()), corners }
    }
}

/// The editable drawing: vertices joined by edges, grouped into layers, with faces
/// marked as holes or coloured, and reference images.
///
/// Faces are named by their keys: the sorted, duplicate-free lists of their vertices.
pub struct Mesh {
    pub vertices: Vec<Point>,
    pub edges: Vec<[usize; 2]>,
    pub layers: Vec<Layer>,
    pub vertex_layers: Vec<u32>,
    pub holes: Vec<Vec<usize>>,
    pub colors: Vec<(Vec<usize>, Rgba)>,
    pub images: Vec<Image>,
}

/// What a mesh holds, each list taken by the views of its items.
#[verifier::ext_equal]
pub struct MeshView {
    pub vertices: Seq<Point>,
    pub edges: Seq<Seq<usize>>,
    pub layers: Seq<LayerView>,
    pub vertex_layers: Seq<u32>,
    pub holes: Seq<Seq<usize>>,
    pub colors: Seq<(Seq<usize>, Rgba)>,
    pub images: Seq<ImageView>,
}

impl View for Mesh {
    type V = MeshView;

    open spec fn view(&self) -> MeshView {
        MeshView {
            vertices: views(self.vertices@),
            edges: views(self.edges@),
            layers: views(self.layers@),
            vertex_layers: views(self.vertex_layers@),
            holes: views(self.holes@),
            colors: views(self.colors@),
            images: views(self.images@),
        }
    }
}

/// The difference between two meshes, list by list.
pub struct Change {
    vertices: Splice<Point>,
    edges: Splice<[usize; 2]>,
    layers: Splice<Layer>,
    vertex_layers: Splice<u32>,
    holes: Splice<Vec<usize>>,
    colors: Splice<(Vec<usize>, Rgba)>,
    images: Splice<Image>,
}

/// What a change records, list by list.
pub struct ChangeView {
    pub vertices: Edit<Point>,
    pub edges: Edit<Seq<usize>>,
    pub layers: Edit<LayerView>,
    pub vertex_layers: Edit<u32>,
    pub holes: Edit<Seq<usize>>,
    pub colors: Edit<(Seq<usize>, Rgba)>,
    pub images: Edit<ImageView>,
}

impl View for Change {
    type V = ChangeView;

    closed spec fn view(&self) -> ChangeView {
        ChangeView {
            vertices: self.vertices@,
            edges: self.edges@,
            layers: self.layers@,
            vertex_layers: self.vertex_layers@,
            holes: self.holes@,
            colors: self.colors@,
            images: self.images@,
        }
    }
}

/// The change that turns mesh `a` into mesh `b`.
pub open spec fn change_between(a: MeshView, b: MeshView) -> ChangeView {
    ChangeView {
        vertices: edit_between::<Point>(a.vertices, b.vertices),
        edges: edit_between::<[usize; 2]>(a.edges, b.edges),
        layers: edit_between::<Layer>(a.layers, b.layers),
        vertex_layers: edit_between::<u32>(a.vertex_layers, b.vertex_layers),
        holes: edit_between::<Vec<usize>>(a.holes, b.holes),
        colors: edit_between::<(Vec<usize>, Rgba)>(a.colors, b.colors),
        images: edit_between::<Image>(a.images, b.images),
    }
}

/// Whether `change` can be applied to `mesh` in the given direction.
pub open spec fn change_fits(mesh: MeshView, change: ChangeView, forward: bool) -> bool {
    &&& fits(mesh.vertices, change.vertices, forward)
    &&& fits(mesh.edges, change.edges, forward)
    &&& fits(mesh.layers, change.layers, forward)
    &&& fits(mesh.vertex_layers, change.vertex_layers, forward)
    &&& fits(mesh.holes, change.holes, forward)
    &&& fits(mesh.colors, change.colors, forward)
    &&& fits(mesh.images, change.images, forward)
}

/// The mesh that applying `change` to `mesh` in the given direction gives.
pub open spec fn changed(mesh: MeshView, change: ChangeView, forward: bool) -> MeshView {
    MeshView {
        vertices: patched(mesh.vertices, change.vertices, forward),
        edges: patched(mesh.edges, change.edges, forward),
        layers: patched(mesh.layers, change.layers, forward),
        vertex_layers: patched(mesh.vertex_layers, change.vertex_layers, forward),
        holes: patched(mesh.holes, change.holes, forward),
        colors: patched(mesh.colors, change.colors, forward),
        images: patched(mesh.images, change.images, forward),
    }
}

/// Whether a change changes nothing.
pub open spec fn change_is_empty(change: ChangeView) -> bool {
    &&& change.vertices.before.len() == 0 && change.vertices.after.len() == 0
    &&& change.edges.before.len() == 0 && change.edges.after.len() == 0
    &&& change.layers.before.len() == 0 && change.layers.after.len() == 0
    &&& change.vertex_layers.before.len() == 0 && change.vertex_layers.after.len() == 0
    &&& change.holes.before.len() == 0 && change.holes.after.len() == 0
    &&& change.colors.before.len() == 0 && change.colors.after.len() == 0
    &&& change.images.before.len() == 0 && change.images.after.len() == 0
}

/// Whether two meshes agree list by list: positions compare as the numbers they
/// encode, everything else by equality.
pub open spec fn meshes_agree(a: MeshView, b: MeshView) -> bool {
    &&& agree_all::<Point>(a.vertices, b.vertices)
    &&& agree_all::<[usize; 2]>(a.edges, b.edges)
    &&& agree_all::<Layer>(a.layers, b.layers)
    &&& agree_all::<u32>(a.vertex_layers, b.vertex_layers)
    &&& agree_all::<Vec<usize>>(a.holes, b.holes)
    &&& agree_all::<(Vec<usize>, Rgba)>(a.colors, b.colors)
    &&& agree_all::<Image>(a.images, b.images)
}

/// Whether each item of each list of `a` equals or agrees with the one of `b` at its
/// place.
pub open spec fn meshes_match(a: MeshView, b: MeshView) -> bool {
    &&& match_all::<Point>(a.vertices, b.vertices)
    &&& match_all::<[usize; 2]>(a.edges, b.edges)
    &&& match_all::<Layer>(a.layers, b.layers)
    &&& match_all::<u32>(a.vertex_layers, b.vertex_layers)
    &&& match_all::<Vec<usize>>(a.holes, b.holes)
    &&& match_all::<(Vec<usize>, Rgba)>(a.colors, b.colors)
    &&& match_all::<Image>(a.images, b.images)
}

/// Applying the change between two meshes forward to the first gives a mesh that
/// matches the second, and applying it backward to the second gives one that the first
/// matches.
pub proof fn lemma_change_round_trip(a: MeshView, b: MeshView)
    ensures
        change_fits(a, change_between(a, b), true),
        change_fits(b, change_between(a, b), false),
        meshes_match(changed(a, change_between(a, b), true), b),
        meshes_match(a, changed(b, change_between(a, b), false)),
{
    lemma_edit_round_trip::<Point>(a.vertices, b.vertices);
    lemma_edit_round_trip::<[usize; 2]>(a.edges, b.edges);
    lemma_edit_round_trip::<Layer>(a.layers, b.layers);
    lemma_edit_round_trip::<u32>(a.vertex_layers, b.vertex_layers);
    lemma_edit_round_trip::<Vec<usize>>(a.holes, b.holes);
    lemma_edit_round_trip::<(Vec<usize>, Rgba)>(a.colors, b.colors);
    lemma_edit_round_trip::<Image>(a.images, b.images);
}

/// The change between two meshes is empty exactly when the meshes agree.
pub proof fn lemma_change_empty(a: MeshView, b: MeshView)
    ensures
        change_is_empty(change_between(a, b)) <==> meshes_agree(a, b),
{
    crate::history::lemma_edit_empty::<Point>(a.vertices, b.vertices);
    crate::history::lemma_edit_empty::<[usize; 2]>(a.edges, b.edges);
    crate::history::lemma_edit_empty::<Layer>(a.layers, b.layers);
    crate::history::lemma_edit_empty::<u32>(a.vertex_layers, b.vertex_layers);
    crate::history::lemma_edit_empty::<Vec<usize>>(a.holes, b.holes);
    crate::history::lemma_edit_empty::<(Vec<usize>, Rgba)>(a.colors, b.colors);
    crate::history::lemma_edit_empty::<Image>(a.images, b.images);
}

/// Whether `mesh` holds, list by list, the `after` parts of `change` (when `after` is
/// true) or its `before` parts.
pub open spec fn change_holds(mesh: MeshView, change: ChangeView, after: bool) -> bool {
    &&& edit_holds(mesh.vertices, change.vertices, after)
    &&& edit_holds(mesh.edges, change.edges, after)
    &&& edit_holds(mesh.layers, change.layers, after)
    &&& edit_holds(mesh.vertex_layers, change.vertex_layers, after)
    &&& edit_holds(mesh.holes, change.holes, after)
    &&& edit_holds(mesh.colors, change.colors, after)
    &&& edit_holds(mesh.images, change.images, after)
}

/// Undoing a change from a mesh that holds its `after` parts, then redoing it, gives the
/// mesh back; and the same the other way round.
pub proof fn lemma_change_holds(mesh: MeshView, change: ChangeView, after: bool)
    requires
        change_holds(mesh, change, after),
    ensures
        change_fits(mesh, change, !after),
        change_holds(changed(mesh, change, !after), change, !after),
        change_fits(changed(mesh, change, !after), change, after),
        changed(changed(mesh, change, !after), change, after) == mesh,
{
    lemma_edit_holds(mesh.vertices, change.vertices, after);
    lemma_edit_holds(mesh.edges, change.edges, after);
    lemma_edit_holds(mesh.layers, change.layers, after);
    lemma_edit_holds(mesh.vertex_layers, change.vertex_layers, after);
    lemma_edit_holds(mesh.holes, change.holes, after);
    lemma_edit_holds(mesh.colors, change.colors, after);
    lemma_edit_holds(mesh.images, change.images, after);
}

/// The change between two meshes holds its `before` parts in the first and its `after`
/// parts in the second.
pub proof fn lemma_change_between_holds(a: MeshView, b: MeshView)
    ensures
        change_holds(a, change_between(a, b), false),
        change_holds(b, change_between(a, b), true),
{
    lemma_edit_between_holds::<Point>(a.vertices, b.vertices);
    lemma_edit_between_holds::<[usize; 2]>(a.edges, b.edges);
    lemma_edit_between_holds::<Layer>(a.layers, b.layers);
    lemma_edit_between_holds::<u32>(a.vertex_layers, b.vertex_layers);
    lemma_edit_between_holds::<Vec<usize>>(a.holes, b.holes);
    lemma_edit_between_holds::<(Vec<usize>, Rgba)>(a.colors, b.colors);
    lemma_edit_between_holds::<Image>(a.images, b.images);
}

/// A fresh copy of a list, item by item.
pub fn copy_list<T: Element>(items: &[T]) -> (copy: Vec<T>)
    ensures
        views(copy@) == views(items@),
{
    let mut copy: Vec<T> = Vec::new();
    let mut i: usize = 0;
    while i < items.len()
        invariant
            i <= items@.len(),
            views(copy@) == views(items@).take(i as int),
        decreases items@.len() - i,
    {
        let item = items[i].duplicate();
        let ghost prior = copy@;
        copy.push(item);
        assert(views(copy@) =~= views(prior).push(item@));
        i = i + 1;
        assert(views(copy@) =~= views(items@).take(i as int));
    }
    assert(views(items@).take(items@.len() as int) =~= views(items@));
    copy
}

impl Element for Mesh {
    open spec fn agree(a: MeshView, b: MeshView) -> bool {
        meshes_agree(a, b)
    }

    fn same(&self, other: &Self) -> (equal: bool) {
        let equal = self.diff(other).is_empty();
        proof {
            lemma_change_empty(self@, other@);
        }
        equal
    }

    fn duplicate(&self) -> (copy: Self) {
        Mesh {
            vertices: copy_list(self.vertices.as_slice()),
            edges: copy_list(self.edges.as_slice()),
            layers: copy_list(self.layers.as_slice()),
            vertex_layers: copy_list(self.vertex_layers.as_slice()),
            holes: copy_list(self.holes.as_slice()),
            colors: copy_list(self.colors.as_slice()),
            images: copy_list(self.images.as_slice()),
        }
    }
}

impl Change {
    /// Whether the change can be applied to `mesh` in the given direction (see
    /// `change_fits`).
    pub fn fits(&self, mesh: &Mesh, forward: bool) -> (ok: bool)
        ensures
            ok == change_fits(mesh@, self@, forward),
    {
        self.vertices.fits_len(mesh.vertices.len(), forward)
            && self.edges.fits_len(mesh.edges.len(), forward)
            && self.layers.fits_len(mesh.layers.len(), forward)
            && self.vertex_layers.fits_len(mesh.vertex_layers.len(), forward)
            && self.holes.fits_len(mesh.holes.len(), forward)
            && self.colors.fits_len(mesh.colors.len(), forward)
            && self.images.fits_len(mesh.images.len(), forward)
    }

    /// Whether the change changes nothing.
    pub fn is_empty(&self) -> (empty: bool)
        ensures
            empty == change_is_empty(self@),
    {
        self.vertices.is_empty() && self.edges.is_empty() && self.layers.is_empty()
            && self.vertex_layers.is_empty() && self.holes.is_empty() && self.colors.is_empty()
            && self.images.is_empty()
    }
}

impl Mesh {
    /// The change that turns this mesh into `after`.
    pub fn diff(&self, after: &Mesh) -> (change: Change)
        ensures
            change@ == change_between(self@, after@),
    {
        Change {
            vertices: Splice::new(self.vertices.as_slice(), after.vertices.as_slice()),
            edges: Splice::new(self.edges.as_slice(), after.edges.as_slice()),
            layers: Splice::new(self.layers.as_slice(), after.layers.as_slice()),
            vertex_layers: Splice::new(self.vertex_layers.as_slice(), after.vertex_layers.as_slice()),
            holes: Splice::new(self.holes.as_slice(), after.holes.as_slice()),
            colors: Splice::new(self.colors.as_slice(), after.colors.as_slice()),
            images: Splice::new(self.images.as_slice(), after.images.as_slice()),
        }
    }

    /// Applies `change` forward (redo) or backward (undo).
    pub fn apply(&mut self, change: &Change, forward: bool)
        requires
            change_fits(old(self)@, change@, forward),
        ensures
            final(self)@ == changed(old(self)@, change@, forward),
    {
        change.vertices.apply(&mut self.vertices, forward);
        change.edges.apply(&mut self.edges, forward);
        change.layers.apply(&mut self.layers, forward);
        change.vertex_layers.apply(&mut self.vertex_layers, forward);
        change.holes.apply(&mut self.holes, forward);
        change.colors.apply(&mut self.colors, forward);
        change.images.apply(&mut self.images, forward);
    }
}

} // verus!

verus! {

impl Default for Mesh {
    /// An empty mesh.
    fn default() -> (mesh: Self)
        ensures
            mesh@ == (MeshView {
                vertices: Seq::empty(),
                edges: Seq::empty(),
                layers: Seq::empty(),
                vertex_layers: Seq::empty(),
                holes: Seq::empty(),
                colors: Seq::empty(),
                images: Seq::empty(),
            }),
    {
        let mesh = Mesh {
            vertices: Vec::new(),
            edges: Vec::new(),
            layers: Vec::new(),
            vertex_layers: Vec::new(),
            holes: Vec::new(),
            colors: Vec::new(),
            images: Vec::new(),
        };
        assert(mesh@ =~= MeshView {
            vertices: Seq::empty(),
            edges: Seq::empty(),
            layers: Seq::empty(),
            vertex_layers: Seq::empty(),
            holes: Seq::empty(),
            colors: Seq::empty(),
            images: Seq::empty(),
        });
        mesh
    }
}

} // verus!

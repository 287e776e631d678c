use crate::construct::index_range;
use crate::faces::{face_key, is_key_of, is_within, key_listed, key_of, listed, within};
use crate::graph::{color_keys, keys_below, layer_exists};
use crate::history::views;
use crate::mesh::{Mesh, MeshView, Point, Rgba};
use vstd::prelude::*;

verus! {

broadcast use vstd::seq_lib::group_seq_properties;

/// The faces whose vertices all lie among `vertices`, in their order.
pub open spec fn selected_faces(faces: Seq<Seq<usize>>, vertices: Seq<usize>) -> Seq<Seq<usize>>
    decreases faces.len(),
{
    if faces.len() == 0 {
        Seq::empty()
    } else {
        let prior = selected_faces(faces.drop_last(), vertices);
        if within(faces.last(), vertices) { prior.push(faces.last()) } else { prior }
    }
}

/// The sides of a face, each vertex to the next and the last to the first.
pub open spec fn sides(face: Seq<usize>) -> Seq<Seq<usize>> {
    Seq::new(face.len(), |i: int| seq![face[i], face[(i + 1) % (face.len() as int)]])
}

/// The sides of all the faces, face after face.
pub open spec fn all_sides(faces: Seq<Seq<usize>>) -> Seq<Seq<usize>>
    decreases faces.len(),
{
    if faces.len() == 0 {
        Seq::empty()
    } else {
        all_sides(faces.drop_last()) + sides(faces.last())
    }
}

/// Whether two sides join the same two vertices, in either direction.
pub open spec fn same_side(d: Seq<usize>, e: Seq<usize>) -> bool {
    (d[0] == e[0] && d[1] == e[1]) || (d[0] == e[1] && d[1] == e[0])
}

/// How many of `sides` join the same two vertices as `e`.
pub open spec fn side_count(sides: Seq<Seq<usize>>, e: Seq<usize>) -> nat
    decreases sides.len(),
{
    if sides.len() == 0 {
        0
    } else {
        side_count(sides.drop_last(), e) + if same_side(sides.last(), e) { 1nat } else { 0nat }
    }
}

/// The sides among `list` that no other side of `all` shares: the boundary of the faces.
pub open spec fn boundary_of(list: Seq<Seq<usize>>, all: Seq<Seq<usize>>) -> Seq<Seq<usize>>
    decreases list.len(),
{
    if list.len() == 0 {
        Seq::empty()
    } else {
        let prior = boundary_of(list.drop_last(), all);
        if side_count(all, list.last()) == 1 { prior.push(list.last()) } else { prior }
    }
}

/// The vertices that the boundary sides start from, each once, in the order they first
/// occur.
pub open spec fn boundary_vertices(boundary: Seq<Seq<usize>>) -> Seq<usize>
    decreases boundary.len(),
{
    if boundary.len() == 0 {
        Seq::empty()
    } else {
        let prior = boundary_vertices(boundary.drop_last());
        let v = boundary.last()[0];
        if prior.contains(v) { prior } else { prior.push(v) }
    }
}

/// Where the last boundary side that starts at `v` leads.
pub open spec fn next_of(boundary: Seq<Seq<usize>>, v: usize) -> Option<usize>
    decreases boundary.len(),
{
    if boundary.len() == 0 {
        None
    } else if boundary.last()[0] == v {
        Some(boundary.last()[1])
    } else {
        next_of(boundary.drop_last(), v)
    }
}

/// Where the last boundary side that ends at `v` comes from.
pub open spec fn prev_of(boundary: Seq<Seq<usize>>, v: usize) -> Option<usize>
    decreases boundary.len(),
{
    if boundary.len() == 0 {
        None
    } else if boundary.last()[1] == v {
        Some(boundary.last()[0])
    } else {
        prev_of(boundary.drop_last(), v)
    }
}

/// The position of `v` in `list`, which holds it once.
pub open spec fn position_of(list: Seq<usize>, v: usize) -> int {
    choose|k: int| 0 <= k < list.len() && list[k] == v
}

/// What vertex `v` becomes: the copy of a boundary vertex, the vertex itself otherwise.
pub open spec fn inset_map(copied: Seq<usize>, n: int, v: usize) -> usize {
    if copied.contains(v) { (n + position_of(copied, v)) as usize } else { v }
}

/// The edges once those shared by two of the faces follow the copies.
pub open spec fn inset_edges(edges: Seq<Seq<usize>>, all: Seq<Seq<usize>>, copied: Seq<usize>, n: int) -> Seq<Seq<usize>>
    decreases edges.len(),
{
    if edges.len() == 0 {
        Seq::empty()
    } else {
        let e = edges.last();
        let moved = if side_count(all, e) == 2 { seq![inset_map(copied, n, e[0]), inset_map(copied, n, e[1])] } else { e };
        inset_edges(edges.drop_last(), all, copied, n).push(moved)
    }
}

/// A key with its vertices mapped to their copies.
pub open spec fn mapped_key(key: Seq<usize>, copied: Seq<usize>, n: int) -> Seq<usize>
    decreases key.len(),
{
    if key.len() == 0 {
        Seq::empty()
    } else {
        mapped_key(key.drop_last(), copied, n).push(inset_map(copied, n, key.last()))
    }
}

/// A face key that follows the copies when it is the key of one of the faces.
pub open spec fn inset_key(key: Seq<usize>, face_keys: Seq<Seq<usize>>, copied: Seq<usize>, n: int) -> Seq<usize> {
    if face_keys.contains(key) { key_of(mapped_key(key, copied, n)) } else { key }
}

/// The keys of the faces.
pub open spec fn keys_of(faces: Seq<Seq<usize>>) -> Seq<Seq<usize>> {
    faces.map_values(|face: Seq<usize>| key_of(face))
}

/// The mesh once the faces among `vertices` are inset: each boundary vertex gets a copy
/// at the same place and on the same layer; edges between two of the faces, and the faces'
/// keys, follow the copies; the boundary is drawn again between the copies, and each
/// boundary vertex is joined to its copy.
pub open spec fn inset_mesh(mesh: MeshView, faces: Seq<Seq<usize>>, vertices: Seq<usize>) -> MeshView {
    let chosen = selected_faces(faces, vertices);
    let all = all_sides(chosen);
    let boundary = boundary_of(all, all);
    let copied = boundary_vertices(boundary);
    let n = mesh.vertices.len() as int;
    let face_keys = keys_of(chosen);
    MeshView {
        vertices: mesh.vertices + copied.map_values(|v: usize| mesh.vertices[v as int]),
        vertex_layers: mesh.vertex_layers + copied.map_values(|v: usize| mesh.vertex_layers[v as int]),
        edges: inset_edges(mesh.edges, all, copied, n)
            + boundary.map_values(|d: Seq<usize>| seq![inset_map(copied, n, d[0]), inset_map(copied, n, d[1])])
            + Seq::new(copied.len(), |k: int| seq![copied[k], (n + k) as usize]),
        holes: mesh.holes.map_values(|key: Seq<usize>| inset_key(key, face_keys, copied, n)),
        colors: mesh.colors.map_values(|entry: (Seq<usize>, Rgba)| (inset_key(entry.0, face_keys, copied, n), entry.1)),
        ..mesh
    }
}

} // verus!

verus! {

fn select_faces(faces: &[Vec<usize>], vertices: &[usize]) -> (chosen: Vec<Vec<usize>>)
    ensures
        views(chosen@) == selected_faces(views(faces@), vertices@),
{
    let ghost all = views(faces@);
    let mut chosen: Vec<Vec<usize>> = Vec::new();
    let mut i: usize = 0;
    while i < faces.len()
        invariant
            i <= faces@.len(),
            all == views(faces@),
            views(chosen@) == selected_faces(all.take(i as int), vertices@),
        decreases faces@.len() - i,
    {
        assert(all.take(i + 1).drop_last() =~= all.take(i as int));
        assert(all.take(i + 1).last() == faces@[i as int]@);
        if is_within(faces[i].as_slice(), vertices) {
            let copy = crate::element::copy_indices(faces[i].as_slice());
            let ghost prior = chosen@;
            let ghost cv = copy@;
            chosen.push(copy);
            assert(views(prior.push(copy)) =~= views(prior).push(cv));
        }
        i = i + 1;
    }
    assert(all.take(all.len() as int) =~= all);
    chosen
}

fn sides_of(faces: &Vec<Vec<usize>>) -> (list: Vec<[usize; 2]>)
    ensures
        views(list@) == all_sides(views(faces@)),
{
    let ghost all = views(faces@);
    let mut list: Vec<[usize; 2]> = Vec::new();
    let mut i: usize = 0;
    while i < faces.len()
        invariant
            i <= faces@.len(),
            all == views(faces@),
            views(list@) == all_sides(all.take(i as int)),
        decreases faces@.len() - i,
    {
        let face = &faces[i];
        let ghost fv = face@;
        assert(all[i as int] == fv);
        let ghost base = views(list@);
        let count = face.len();
        let mut j: usize = 0;
        while j < count
            invariant
                j <= count == fv.len(),
                fv == face@,
                views(list@) == base + sides(fv).take(j as int),
            decreases count - j,
        {
            let next = if j + 1 == count { 0 } else { j + 1 };
            let side = [face[j], face[next]];
            let ghost prior = list@;
            list.push(side);
            proof {
                assert((j + 1) % (count as int) == next as int) by {
                    if j + 1 < count {
                        vstd::arithmetic::div_mod::lemma_small_mod((j + 1) as nat, count as nat);
                    } else {
                        vstd::arithmetic::div_mod::lemma_mod_self_0(count as int);
                    }
                }
                assert(side@ =~= sides(fv)[j as int]);
                assert(views(prior.push(side)) =~= views(prior).push(side@));
                assert(views(list@) =~= base + sides(fv).take(j + 1));
            }
            j = j + 1;
        }
        proof {
            assert(sides(fv).take(count as int) =~= sides(fv));
            assert(all.take(i + 1).drop_last() =~= all.take(i as int));
            assert(all.take(i + 1).last() == fv);
        }
        i = i + 1;
    }
    assert(all.take(all.len() as int) =~= all);
    list
}

fn count_side(list: &Vec<[usize; 2]>, a: usize, b: usize) -> (count: usize)
    ensures
        count == side_count(views(list@), seq![a, b]),
{
    let ghost all = views(list@);
    let mut count: usize = 0;
    let mut i: usize = 0;
    while i < list.len()
        invariant
            i <= list@.len(),
            all == views(list@),
            count == side_count(all.take(i as int), seq![a, b]),
            count <= i,
        decreases list@.len() - i,
    {
        let d = list[i];
        assert(all[i as int] == d@);
        assert(all.take(i + 1).drop_last() =~= all.take(i as int));
        assert(all.take(i + 1).last() == d@);
        if (d[0] == a && d[1] == b) || (d[0] == b && d[1] == a) {
            count = count + 1;
        }
        i = i + 1;
    }
    assert(all.take(all.len() as int) =~= all);
    count
}

fn boundary_sides(list: &Vec<[usize; 2]>) -> (boundary: Vec<[usize; 2]>)
    ensures
        views(boundary@) == boundary_of(views(list@), views(list@)),
{
    let ghost all = views(list@);
    let mut boundary: Vec<[usize; 2]> = Vec::new();
    let mut i: usize = 0;
    while i < list.len()
        invariant
            i <= list@.len(),
            all == views(list@),
            views(boundary@) == boundary_of(all.take(i as int), all),
        decreases list@.len() - i,
    {
        let d = list[i];
        assert(all[i as int] == d@);
        assert(all.take(i + 1).drop_last() =~= all.take(i as int));
        assert(all.take(i + 1).last() == d@);
        assert(d@ =~= seq![d[0], d[1]]);
        if count_side(list, d[0], d[1]) == 1 {
            let ghost prior = boundary@;
            boundary.push(d);
            assert(views(prior.push(d)) =~= views(prior).push(d@));
        }
        i = i + 1;
    }
    assert(all.take(all.len() as int) =~= all);
    boundary
}

proof fn lemma_boundary_vertices(boundary: Seq<Seq<usize>>)
    ensures
        forall|i: int, j: int| 0 <= i < j < boundary_vertices(boundary).len() ==> boundary_vertices(boundary)[i] != boundary_vertices(boundary)[j],
        forall|k: int| 0 <= k < boundary_vertices(boundary).len() ==> exists|m: int| 0 <= m < boundary.len() && boundary[m][0] == #[trigger] boundary_vertices(boundary)[k],
    decreases boundary.len(),
{
    if boundary.len() > 0 {
        let prior = boundary.drop_last();
        lemma_boundary_vertices(prior);
        let (now, was) = (boundary_vertices(boundary), boundary_vertices(prior));
        assert forall|k: int| 0 <= k < now.len() implies exists|m: int| 0 <= m < boundary.len() && boundary[m][0] == #[trigger] now[k] by {
            if k < was.len() {
                let m = choose|m: int| 0 <= m < prior.len() && prior[m][0] == #[trigger] was[k];
                assert(boundary[m] == prior[m]);
            } else {
                assert(boundary[boundary.len() - 1][0] == now[k]);
            }
        }
    }
}

fn first_ends(boundary: &Vec<[usize; 2]>) -> (copied: Vec<usize>)
    ensures
        copied@ == boundary_vertices(views(boundary@)),
{
    let ghost all = views(boundary@);
    let mut copied: Vec<usize> = Vec::new();
    let mut i: usize = 0;
    while i < boundary.len()
        invariant
            i <= boundary@.len(),
            all == views(boundary@),
            copied@ == boundary_vertices(all.take(i as int)),
        decreases boundary@.len() - i,
    {
        let d = boundary[i];
        assert(all[i as int] == d@);
        assert(all.take(i + 1).drop_last() =~= all.take(i as int));
        assert(all.take(i + 1).last() == d@);
        if !listed(copied.as_slice(), d[0]) {
            copied.push(d[0]);
        }
        i = i + 1;
    }
    assert(all.take(all.len() as int) =~= all);
    copied
}

fn find_next(boundary: &Vec<[usize; 2]>, v: usize) -> (found: Option<usize>)
    ensures
        found == next_of(views(boundary@), v),
{
    let ghost all = views(boundary@);
    let mut i = boundary.len();
    while i > 0
        invariant
            i <= boundary@.len(),
            all == views(boundary@),
            next_of(all, v) == next_of(all.take(i as int), v),
        decreases i,
    {
        let d = boundary[i - 1];
        assert(all[i - 1] == d@);
        assert(all.take(i as int).drop_last() =~= all.take(i - 1));
        assert(all.take(i as int).last() == d@);
        if d[0] == v {
            return Some(d[1]);
        }
        i = i - 1;
    }
    None
}

fn find_prev(boundary: &Vec<[usize; 2]>, v: usize) -> (found: Option<usize>)
    ensures
        found == prev_of(views(boundary@), v),
{
    let ghost all = views(boundary@);
    let mut i = boundary.len();
    while i > 0
        invariant
            i <= boundary@.len(),
            all == views(boundary@),
            prev_of(all, v) == prev_of(all.take(i as int), v),
        decreases i,
    {
        let d = boundary[i - 1];
        assert(all[i - 1] == d@);
        assert(all.take(i as int).drop_last() =~= all.take(i - 1));
        assert(all.take(i as int).last() == d@);
        if d[1] == v {
            return Some(d[0]);
        }
        i = i - 1;
    }
    None
}

fn map_vertex(copied: &Vec<usize>, n: usize, v: usize) -> (mapped: usize)
    requires
        forall|i: int, j: int| 0 <= i < j < copied@.len() ==> copied@[i] != copied@[j],
        n + copied@.len() <= usize::MAX,
    ensures
        mapped == inset_map(copied@, n as int, v),
{
    let mut k: usize = 0;
    while k < copied.len()
        invariant
            k <= copied@.len(),
            n + copied@.len() <= usize::MAX,
            forall|i: int, j: int| 0 <= i < j < copied@.len() ==> copied@[i] != copied@[j],
            forall|j: int| 0 <= j < k ==> copied@[j] != v,
        decreases copied@.len() - k,
    {
        if copied[k] == v {
            proof {
                let c = position_of(copied@, v);
                assert(0 <= c < copied@.len() && copied@[c] == v);
                if c < k {
                    assert(copied@[c] != copied@[k as int]);
                } else if c > k {
                    assert(copied@[k as int] != copied@[c]);
                }
            }
            return n + k;
        }
        k = k + 1;
    }
    v
}

} // verus!

verus! {

proof fn lemma_next_some(boundary: Seq<Seq<usize>>, m: int)
    requires
        0 <= m < boundary.len(),
    ensures
        next_of(boundary, boundary[m][0]) is Some,
    decreases boundary.len(),
{
    if boundary.last()[0] != boundary[m][0] {
        assert(m != boundary.len() - 1);
        lemma_next_some(boundary.drop_last(), m);
        assert(boundary.drop_last()[m] == boundary[m]);
    }
}

/// The sides of the faces name only vertices below `n`.
#[verifier::spinoff_prover]
proof fn lemma_sides_below(faces: Seq<Seq<usize>>, n: nat)
    requires
        forall|f: int, j: int| 0 <= f < faces.len() && 0 <= j < faces[f].len() ==> faces[f][j] < n,
    ensures
        forall|i: int| 0 <= i < all_sides(faces).len() ==> #[trigger] all_sides(faces)[i].len() == 2
            && all_sides(faces)[i][0] < n && all_sides(faces)[i][1] < n,
    decreases faces.len(),
{
    if faces.len() > 0 {
        let prior = faces.drop_last();
        assert forall|f: int, j: int| 0 <= f < prior.len() && 0 <= j < prior[f].len() implies prior[f][j] < n by {
            assert(prior[f] == faces[f]);
        }
        lemma_sides_below(prior, n);
        let face = faces.last();
        let (now, was) = (all_sides(faces), all_sides(prior));
        assert forall|i: int| 0 <= i < now.len() implies #[trigger] now[i].len() == 2 && now[i][0] < n && now[i][1] < n by {
            if i < was.len() {
                assert(now[i] == was[i]);
                assert(was[i].len() == 2);
                assert(was[i][0] < n);
                assert(was[i][1] < n);
            } else {
                let k = i - was.len();
                assert(now[i] == sides(face)[k]);
                let next = (k + 1) % (face.len() as int);
                assert(0 <= next < face.len()) by {
                    vstd::arithmetic::div_mod::lemma_mod_bound(k + 1, face.len() as int);
                }
                assert(faces[faces.len() - 1][k] < n);
                assert(faces[faces.len() - 1][next] < n);
                assert(now[i].len() == 2);
                assert(now[i][0] < n);
                assert(now[i][1] < n);
            }
        }
    }
}

proof fn lemma_selected_below(faces: Seq<Seq<usize>>, vertices: Seq<usize>, n: nat)
    requires
        forall|f: int, j: int| 0 <= f < faces.len() && 0 <= j < faces[f].len() ==> faces[f][j] < n,
    ensures
        forall|f: int, j: int| 0 <= f < selected_faces(faces, vertices).len() && 0 <= j < selected_faces(faces, vertices)[f].len()
            ==> selected_faces(faces, vertices)[f][j] < n,
    decreases faces.len(),
{
    if faces.len() > 0 {
        let prior = faces.drop_last();
        assert forall|f: int, j: int| 0 <= f < prior.len() && 0 <= j < prior[f].len() implies prior[f][j] < n by {
            assert(prior[f] == faces[f]);
        }
        lemma_selected_below(prior, vertices, n);
        let (now, was) = (selected_faces(faces, vertices), selected_faces(prior, vertices));
        assert forall|f: int, j: int| 0 <= f < now.len() && 0 <= j < now[f].len() implies now[f][j] < n by {
            if f < was.len() {
                assert(now[f] == was[f]);
            } else {
                assert(now[f] == faces[faces.len() - 1]);
            }
        }
    }
}

proof fn lemma_boundary_within(list: Seq<Seq<usize>>, all: Seq<Seq<usize>>)
    ensures
        forall|i: int| 0 <= i < boundary_of(list, all).len() ==> exists|m: int| 0 <= m < list.len() && list[m] == #[trigger] boundary_of(list, all)[i],
    decreases list.len(),
{
    if list.len() > 0 {
        let prior = list.drop_last();
        lemma_boundary_within(prior, all);
        let (now, was) = (boundary_of(list, all), boundary_of(prior, all));
        assert forall|i: int| 0 <= i < now.len() implies exists|m: int| 0 <= m < list.len() && list[m] == #[trigger] now[i] by {
            if i < was.len() {
                let m = choose|m: int| 0 <= m < prior.len() && prior[m] == #[trigger] was[i];
                assert(list[m] == prior[m]);
            } else {
                assert(list[list.len() - 1] == now[i]);
            }
        }
    }
}

fn map_key(key: &[usize], copied: &Vec<usize>, n: usize) -> (mapped: Vec<usize>)
    requires
        forall|i: int, j: int| 0 <= i < j < copied@.len() ==> copied@[i] != copied@[j],
        n + copied@.len() <= usize::MAX,
    ensures
        mapped@ == mapped_key(key@, copied@, n as int),
{
    let mut mapped: Vec<usize> = Vec::new();
    let mut j: usize = 0;
    while j < key.len()
        invariant
            j <= key@.len(),
            forall|a: int, b: int| 0 <= a < b < copied@.len() ==> copied@[a] != copied@[b],
            n + copied@.len() <= usize::MAX,
            mapped@ == mapped_key(key@.take(j as int), copied@, n as int),
        decreases key@.len() - j,
    {
        let v = map_vertex(copied, n, key[j]);
        mapped.push(v);
        proof {
            assert(key@.take(j + 1).drop_last() =~= key@.take(j as int));
            assert(key@.take(j + 1).last() == key@[j as int]);
        }
        j = j + 1;
    }
    assert(key@.take(key@.len() as int) =~= key@);
    mapped
}

fn face_keys_of(faces: &Vec<Vec<usize>>) -> (keys: Vec<Vec<usize>>)
    ensures
        views(keys@) == keys_of(views(faces@)),
{
    let mut keys: Vec<Vec<usize>> = Vec::new();
    let mut i: usize = 0;
    while i < faces.len()
        invariant
            i <= faces@.len(),
            keys@.len() == i,
            forall|j: int| 0 <= j < i ==> #[trigger] keys@[j]@ == key_of(faces@[j]@),
        decreases faces@.len() - i,
    {
        keys.push(face_key(faces[i].as_slice()));
        i = i + 1;
    }
    assert(views(keys@) =~= keys_of(views(faces@)));
    keys
}

} // verus!

verus! {

/// The boundary sides of the faces among `vertices`.
pub open spec fn inset_boundary(faces: Seq<Seq<usize>>, vertices: Seq<usize>) -> Seq<Seq<usize>> {
    let all = all_sides(selected_faces(faces, vertices));
    boundary_of(all, all)
}

impl Mesh {
    /// Insets the faces whose vertices all lie among `vertices` (`faces` are the faces of
    /// the mesh): see `inset_mesh`. Returns the copies, and for each the boundary vertex
    /// it copies with the vertices before and after it along the boundary, from which
    /// the direction to move the copy inward follows.
    pub fn inset(&mut self, faces: &[Vec<usize>], vertices: &[usize]) -> (result: (Vec<usize>, Vec<(usize, Option<usize>, usize)>))
        requires
            old(self)@.well_formed(),
            forall|f: int, j: int| 0 <= f < faces@.len() && 0 <= j < faces@[f]@.len() ==> faces@[f]@[j] < old(self)@.vertices.len(),
            old(self)@.vertices.len() + all_sides(selected_faces(views(faces@), vertices@)).len() <= usize::MAX,
        ensures
            final(self)@ == inset_mesh(old(self)@, views(faces@), vertices@),
            ({
                let boundary = inset_boundary(views(faces@), vertices@);
                let copied = boundary_vertices(boundary);
                &&& result.0@ == index_range(old(self)@.vertices.len() as int, copied.len() as int)
                &&& result.1@.len() == copied.len()
                &&& forall|k: int| 0 <= k < copied.len() ==> (#[trigger] result.1@[k]).0 == copied[k]
                    && result.1@[k].1 == prev_of(boundary, copied[k]) && next_of(boundary, copied[k]) == Some(result.1@[k].2)
            }),
    {
        let ghost before = self@;
        let ghost fv = views(faces@);
        let n = self.vertices.len();
        let chosen = select_faces(faces, vertices);
        let all = sides_of(&chosen);
        let boundary = boundary_sides(&all);
        let copied = first_ends(&boundary);
        let ghost b = views(boundary@);
        let ghost sides_all = views(all@);
        proof {
            lemma_selected_below(fv, vertices@, n as nat);
            lemma_sides_below(views(chosen@), n as nat);
            lemma_boundary_within(sides_all, sides_all);
            lemma_boundary_vertices(b);
            assert forall|k: int| 0 <= k < copied@.len() implies #[trigger] copied@[k] < n by {
                let m = choose|m: int| 0 <= m < b.len() && b[m][0] == #[trigger] copied@[k];
                let q = choose|q: int| 0 <= q < sides_all.len() && sides_all[q] == #[trigger] b[m];
                assert(sides_all[q].len() == 2);
                assert(sides_all[q][0] < n);
            }
            assert(copied@.len() <= b.len()) by {
                lemma_boundary_vertices_len(b);
            }
            assert(b.len() <= sides_all.len()) by {
                lemma_boundary_len(sides_all, sides_all);
            }
        }
        let mut corners: Vec<(usize, Option<usize>, usize)> = Vec::new();
        let mut inner: Vec<usize> = Vec::new();
        let mut k: usize = 0;
        while k < copied.len()
            invariant
                k <= copied@.len(),
                b == views(boundary@),
                n == before.vertices.len() == before.vertex_layers.len(),
                n + copied@.len() <= usize::MAX,
                forall|j: int| 0 <= j < copied@.len() ==> #[trigger] copied@[j] < n,
                copied@ == boundary_vertices(b),
                forall|j: int| 0 <= j < copied@.len() ==> exists|m: int| 0 <= m < b.len() && b[m][0] == #[trigger] copied@[j],
                corners@.len() == k,
                forall|j: int| 0 <= j < k ==> (#[trigger] corners@[j]).0 == copied@[j]
                    && corners@[j].1 == prev_of(b, copied@[j]) && next_of(b, copied@[j]) == Some(corners@[j].2),
                inner@ == index_range(n as int, k as int),
                self@ == (MeshView {
                    vertices: before.vertices + copied@.take(k as int).map_values(|v: usize| before.vertices[v as int]),
                    vertex_layers: before.vertex_layers + copied@.take(k as int).map_values(|v: usize| before.vertex_layers[v as int]),
                    ..before
                }),
            decreases copied@.len() - k,
        {
            let v = copied[k];
            proof {
                let m = choose|m: int| 0 <= m < b.len() && b[m][0] == #[trigger] copied@[k as int];
                lemma_next_some(b, m);
            }
            let next = match find_next(&boundary, v) {
                Some(next) => next,
                None => v,
            };
            let prev = find_prev(&boundary, v);
            corners.push((v, prev, next));
            assert(self@.vertices.len() == self.vertices@.len());
            assert(self@.vertex_layers.len() == self.vertex_layers@.len());
            let pos = self.vertices[v];
            let layer = self.vertex_layers[v];
            assert(self@.vertices[v as int] == pos);
            assert(self@.vertex_layers[v as int] == layer);
            assert(pos == before.vertices[v as int]);
            assert(layer == before.vertex_layers[v as int]);
            let ghost (pv, pl) = (self.vertices@, self.vertex_layers@);
            self.vertices.push(pos);
            self.vertex_layers.push(layer);
            inner.push(n + k);
            proof {
                assert(copied@.take(k + 1) =~= copied@.take(k as int).push(v));
                assert(views(pv.push(pos)) =~= views(pv).push(pos));
                assert(views(pl.push(layer)) =~= views(pl).push(layer));
                assert(inner@ =~= index_range(n as int, k + 1));
                assert(self@ =~= MeshView {
                    vertices: before.vertices + copied@.take(k + 1).map_values(|v: usize| before.vertices[v as int]),
                    vertex_layers: before.vertex_layers + copied@.take(k + 1).map_values(|v: usize| before.vertex_layers[v as int]),
                    ..before
                });
            }
            k = k + 1;
        }
        proof {
            assert(copied@.take(copied@.len() as int) =~= copied@);
        }
        let ghost mid = self@;
        let mut i: usize = 0;
        while i < self.edges.len()
            invariant
                i <= self.edges@.len() == before.edges.len(),
                sides_all == views(all@),
                forall|a: int, c: int| 0 <= a < c < copied@.len() ==> copied@[a] != copied@[c],
                n + copied@.len() <= usize::MAX,
                before.well_formed(),
                self@ == (MeshView { edges: inset_edges(before.edges.take(i as int), sides_all, copied@, n as int) + before.edges.skip(i as int), ..mid }),
            decreases self.edges@.len() - i,
        {
            let e = self.edges[i];
            proof {
                assert(self@.edges[i as int] == e@);
                assert(inset_edges(before.edges.take(i as int), sides_all, copied@, n as int).len() == i) by {
                    lemma_inset_edges_len(before.edges.take(i as int), sides_all, copied@, n as int);
                }
                assert(before.edges.skip(i as int)[0] == before.edges[i as int]);
                assert(e@ == before.edges[i as int]);
                assert(e@ =~= seq![e[0], e[1]]);
                assert(before.edges.take(i + 1).drop_last() =~= before.edges.take(i as int));
                assert(before.edges.take(i + 1).last() == e@);
            }
            let ghost prior = self.edges@;
            let ghost done = inset_edges(before.edges.take(i as int), sides_all, copied@, n as int);
            let ghost x = if side_count(sides_all, e@) == 2 {
                seq![inset_map(copied@, n as int, e@[0]), inset_map(copied@, n as int, e@[1])]
            } else {
                e@
            };
            proof {
                assert(inset_edges(before.edges.take(i + 1), sides_all, copied@, n as int) == done.push(x));
                assert(views(prior) == done + before.edges.skip(i as int));
            }
            if count_side(&all, e[0], e[1]) == 2 {
                let moved = [map_vertex(&copied, n, e[0]), map_vertex(&copied, n, e[1])];
                self.edges.set(i, moved);
                proof {
                    assert(moved@ =~= x);
                    assert(views(self.edges@) =~= views(prior).update(i as int, x));
                }
            } else {
                proof {
                    assert(views(prior)[i as int] == x);
                }
            }
            proof {
                assert(views(self.edges@) =~= views(prior).update(i as int, x));
                assert(done.push(x) + before.edges.skip(i + 1) =~= views(prior).update(i as int, x));
                assert(self@ =~= MeshView { edges: inset_edges(before.edges.take(i + 1), sides_all, copied@, n as int) + before.edges.skip(i + 1), ..mid });
            }
            i = i + 1;
        }
        let keys = face_keys_of(&chosen);
        let ghost face_keys = views(keys@);
        let ghost mid = self@;
        let mut h: usize = 0;
        while h < self.holes.len()
            invariant
                h <= self.holes@.len() == before.holes.len(),
                face_keys == views(keys@),
                forall|a: int, c: int| 0 <= a < c < copied@.len() ==> copied@[a] != copied@[c],
                n + copied@.len() <= usize::MAX,
                self@ == (MeshView { holes: self@.holes, ..mid }),
                forall|j: int| 0 <= j < h ==> #[trigger] self@.holes[j] == inset_key(before.holes[j], face_keys, copied@, n as int),
                forall|j: int| h <= j < self@.holes.len() ==> #[trigger] self@.holes[j] == before.holes[j],
            decreases self.holes@.len() - h,
        {
            assert(self@.holes[h as int] == self.holes@[h as int]@);
            if key_listed(keys.as_slice(), self.holes[h].as_slice()) {
                let mapped = map_key(self.holes[h].as_slice(), &copied, n);
                let key = face_key(mapped.as_slice());
                let ghost prior = self@.holes;
                let ghost kv = key@;
                let mut slot = key;
                self.holes.set_and_swap(h, &mut slot);
                proof {
                    assert(self@.holes =~= prior.update(h as int, kv));
                }
            }
            h = h + 1;
        }
        let ghost mid2 = self@;
        let mut c: usize = 0;
        while c < self.colors.len()
            invariant
                c <= self.colors@.len() == before.colors.len(),
                face_keys == views(keys@),
                forall|a: int, d: int| 0 <= a < d < copied@.len() ==> copied@[a] != copied@[d],
                n + copied@.len() <= usize::MAX,
                self@ == (MeshView { colors: self@.colors, ..mid2 }),
                forall|j: int| 0 <= j < c ==> #[trigger] self@.colors[j] == (inset_key(before.colors[j].0, face_keys, copied@, n as int), before.colors[j].1),
                forall|j: int| c <= j < self@.colors.len() ==> #[trigger] self@.colors[j] == before.colors[j],
            decreases self.colors@.len() - c,
        {
            assert(self@.colors[c as int] == self.colors@[c as int]@);
            if key_listed(keys.as_slice(), self.colors[c].0.as_slice()) {
                let mapped = map_key(self.colors[c].0.as_slice(), &copied, n);
                let key = face_key(mapped.as_slice());
                let color = self.colors[c].1;
                let ghost prior = self@.colors;
                let ghost kv = key@;
                let mut slot = (key, color);
                self.colors.set_and_swap(c, &mut slot);
                proof {
                    assert(self@.colors =~= prior.update(c as int, (kv, color)));
                }
            }
            c = c + 1;
        }
        let ghost mid3 = self@;
        let mut j: usize = 0;
        while j < boundary.len()
            invariant
                j <= boundary@.len(),
                b == views(boundary@),
                forall|a: int, d: int| 0 <= a < d < copied@.len() ==> copied@[a] != copied@[d],
                n + copied@.len() <= usize::MAX,
                self@ == (MeshView {
                    edges: mid3.edges + b.take(j as int).map_values(|d: Seq<usize>| seq![inset_map(copied@, n as int, d[0]), inset_map(copied@, n as int, d[1])]),
                    ..mid3
                }),
            decreases boundary@.len() - j,
        {
            let d = boundary[j];
            assert(b[j as int] == d@);
            let moved = [map_vertex(&copied, n, d[0]), map_vertex(&copied, n, d[1])];
            let ghost prior = self.edges@;
            self.edges.push(moved);
            proof {
                assert(views(prior.push(moved)) =~= views(prior).push(moved@));
                assert(b.take(j + 1) =~= b.take(j as int).push(d@));
                assert(self@ =~= MeshView {
                    edges: mid3.edges + b.take(j + 1).map_values(|d: Seq<usize>| seq![inset_map(copied@, n as int, d[0]), inset_map(copied@, n as int, d[1])]),
                    ..mid3
                });
            }
            j = j + 1;
        }
        proof {
            assert(b.take(b.len() as int) =~= b);
        }
        let ghost mid4 = self@;
        let mut k: usize = 0;
        while k < copied.len()
            invariant
                k <= copied@.len(),
                n + copied@.len() <= usize::MAX,
                self@ == (MeshView {
                    edges: mid4.edges + Seq::new(k as nat, |q: int| seq![copied@[q], (n + q) as usize]),
                    ..mid4
                }),
            decreases copied@.len() - k,
        {
            let spoke = [copied[k], n + k];
            let ghost prior = self.edges@;
            self.edges.push(spoke);
            proof {
                assert(views(prior.push(spoke)) =~= views(prior).push(spoke@));
                assert(self@ =~= MeshView {
                    edges: mid4.edges + Seq::new((k + 1) as nat, |q: int| seq![copied@[q], (n + q) as usize]),
                    ..mid4
                });
            }
            k = k + 1;
        }
        proof {
            assert(before.edges.take(before.edges.len() as int) =~= before.edges);
            assert(before.edges.skip(before.edges.len() as int) =~= Seq::<Seq<usize>>::empty());
            let expected = inset_mesh(before, fv, vertices@);
            assert(self@.holes =~= expected.holes);
            assert(self@.colors =~= expected.colors);
            assert(self@ =~= expected);
        }
        (inner, corners)
    }
}

proof fn lemma_inset_edges_len(edges: Seq<Seq<usize>>, all: Seq<Seq<usize>>, copied: Seq<usize>, n: int)
    ensures
        inset_edges(edges, all, copied, n).len() == edges.len(),
        forall|i: int| 0 <= i < edges.len() ==> #[trigger] inset_edges(edges, all, copied, n)[i]
            == inset_edges(edges.take(i + 1), all, copied, n).last(),
    decreases edges.len(),
{
    if edges.len() > 0 {
        lemma_inset_edges_len(edges.drop_last(), all, copied, n);
        assert forall|i: int| 0 <= i < edges.len() implies #[trigger] inset_edges(edges, all, copied, n)[i]
            == inset_edges(edges.take(i + 1), all, copied, n).last() by {
            if i < edges.len() - 1 {
                assert(edges.drop_last().take(i + 1) =~= edges.take(i + 1));
            } else {
                assert(edges.take(i + 1) =~= edges);
            }
        }
    }
}

proof fn lemma_boundary_vertices_len(boundary: Seq<Seq<usize>>)
    ensures
        boundary_vertices(boundary).len() <= boundary.len(),
    decreases boundary.len(),
{
    if boundary.len() > 0 {
        lemma_boundary_vertices_len(boundary.drop_last());
    }
}

proof fn lemma_boundary_len(list: Seq<Seq<usize>>, all: Seq<Seq<usize>>)
    ensures
        boundary_of(list, all).len() <= list.len(),
    decreases list.len(),
{
    if list.len() > 0 {
        lemma_boundary_len(list.drop_last(), all);
    }
}

} // verus!

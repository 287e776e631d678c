use crate::construct::index_range;
use crate::faces::{face_key, is_key_of, key_of};
use crate::graph::{color_keys, keys_below, layer_exists};
use crate::history::views;
use crate::mesh::{Mesh, MeshView, Rgba};
use crate::sync::synced;
use vstd::prelude::*;

verus! {

broadcast use vstd::seq_lib::group_seq_properties;

/// `i` is the last position of `v` in `list`.
pub open spec fn is_last_index(list: Seq<usize>, v: usize, i: int) -> bool {
    &&& 0 <= i < list.len()
    &&& list[i] == v
    &&& forall|j: int| i < j < list.len() ==> list[j] != v
}

/// The index of the copy of vertex `v` when the vertices of `list` are copied to
/// `offset` onwards: a vertex listed twice gets the later copy.
pub open spec fn copy_index(list: Seq<usize>, offset: int, v: usize) -> usize {
    (offset + choose|i: int| is_last_index(list, v, i)) as usize
}

/// Whether every vertex of `key` is copied.
pub open spec fn all_listed(key: Seq<usize>, list: Seq<usize>) -> bool {
    forall|j: int| 0 <= j < key.len() ==> list.contains(#[trigger] key[j])
}

/// `key` with each vertex replaced by its copy.
pub open spec fn mapped_key(key: Seq<usize>, list: Seq<usize>, offset: int) -> Seq<usize> {
    key.map_values(|v: usize| copy_index(list, offset, v))
}

/// The copies of the edges whose ends are both copied, in the order of `edges`.
pub open spec fn copied_edges(edges: Seq<Seq<usize>>, list: Seq<usize>, offset: int) -> Seq<Seq<usize>>
    decreases edges.len(),
{
    if edges.len() == 0 {
        Seq::empty()
    } else {
        let prior = copied_edges(edges.drop_last(), list, offset);
        let e = edges.last();
        if list.contains(e[0]) && list.contains(e[1]) {
            prior.push(seq![copy_index(list, offset, e[0]), copy_index(list, offset, e[1])])
        } else {
            prior
        }
    }
}

/// The keys of the copies of the faces whose vertices are all copied.
pub open spec fn copied_keys(keys: Seq<Seq<usize>>, list: Seq<usize>, offset: int) -> Seq<Seq<usize>>
    decreases keys.len(),
{
    if keys.len() == 0 {
        Seq::empty()
    } else {
        let prior = copied_keys(keys.drop_last(), list, offset);
        let key = keys.last();
        if all_listed(key, list) {
            prior.push(key_of(mapped_key(key, list, offset)))
        } else {
            prior
        }
    }
}

/// The colours of the copies of the coloured faces whose vertices are all copied.
pub open spec fn copied_colors(colors: Seq<(Seq<usize>, Rgba)>, list: Seq<usize>, offset: int) -> Seq<(Seq<usize>, Rgba)>
    decreases colors.len(),
{
    if colors.len() == 0 {
        Seq::empty()
    } else {
        let prior = copied_colors(colors.drop_last(), list, offset);
        let entry = colors.last();
        if all_listed(entry.0, list) {
            prior.push((key_of(mapped_key(entry.0, list, offset)), entry.1))
        } else {
            prior
        }
    }
}

/// The positions of the vertices of `list`.
pub open spec fn copied_positions(mesh: MeshView, list: Seq<usize>) -> Seq<crate::mesh::Point> {
    list.map_values(|v: usize| mesh.vertices[v as int])
}

/// The layers of the vertices of `list`.
pub open spec fn copied_layers(mesh: MeshView, list: Seq<usize>) -> Seq<u32> {
    list.map_values(|v: usize| mesh.vertex_layers[v as int])
}

/// A mesh with copies of the vertices of `list` added at its end, on their layers,
/// with copies of the edges, holes and colours among them.
pub open spec fn copied(mesh: MeshView, list: Seq<usize>) -> MeshView {
    let n = mesh.vertices.len() as int;
    MeshView {
        vertices: mesh.vertices + copied_positions(mesh, list),
        vertex_layers: mesh.vertex_layers + copied_layers(mesh, list),
        edges: mesh.edges + copied_edges(mesh.edges, list, n),
        holes: mesh.holes + copied_keys(mesh.holes, list, n),
        colors: mesh.colors + copied_colors(mesh.colors, list, n),
        ..mesh
    }
}

/// A mesh with copies of the vertices of `list`, each joined to its source.
pub open spec fn extruded(mesh: MeshView, list: Seq<usize>) -> MeshView {
    let with_copies = copied(mesh, list);
    let n = mesh.vertices.len() as int;
    MeshView {
        edges: with_copies.edges + Seq::new(list.len(), |i: int| seq![list[i], (n + i) as usize]),
        ..with_copies
    }
}

proof fn lemma_last_index_unique(list: Seq<usize>, v: usize, i: int)
    requires
        is_last_index(list, v, i),
    ensures
        (choose|k: int| is_last_index(list, v, k)) == i,
{
    let k = choose|k: int| is_last_index(list, v, k);
    assert(is_last_index(list, v, k));
    if k < i {
        assert(list[i] != v);
    }
    if i < k {
        assert(list[k] != v);
    }
}

/// The index of the copy of `v`, if `v` is copied.
fn copy_of(list: &[usize], offset: usize, v: usize) -> (copy: Option<usize>)
    requires
        offset + list@.len() <= usize::MAX,
    ensures
        copy is Some <==> list@.contains(v),
        copy is Some ==> copy->0 == copy_index(list@, offset as int, v) && copy->0 < offset + list@.len()
            && offset <= copy->0,
{
    let mut i: usize = list.len();
    while i > 0
        invariant
            i <= list@.len(),
            offset + list@.len() <= usize::MAX,
            forall|j: int| i <= j < list@.len() ==> list@[j] != v,
        decreases i,
    {
        i = i - 1;
        if list[i] == v {
            proof {
                lemma_last_index_unique(list@, v, i as int);
            }
            return Some(offset + i);
        }
    }
    proof {
        if list@.contains(v) {
            let j = choose|j: int| 0 <= j < list@.len() && list@[j] == v;
            assert(list@[j] != v);
        }
    }
    None
}

/// The key of the copy of the face `key`, if all its vertices are copied.
fn copy_key(key: &[usize], list: &[usize], offset: usize) -> (copy: Option<Vec<usize>>)
    requires
        offset + list@.len() <= usize::MAX,
    ensures
        copy is Some <==> all_listed(key@, list@),
        copy is Some ==> copy->0@ == key_of(mapped_key(key@, list@, offset as int))
            && forall|j: int| 0 <= j < copy->0@.len() ==> #[trigger] copy->0@[j] < offset + list@.len(),
{
    let mut mapped: Vec<usize> = Vec::new();
    let mut j: usize = 0;
    while j < key.len()
        invariant
            j <= key@.len(),
            offset + list@.len() <= usize::MAX,
            all_listed(key@.take(j as int), list@),
            mapped@ == mapped_key(key@.take(j as int), list@, offset as int),
            forall|k: int| 0 <= k < mapped@.len() ==> #[trigger] mapped@[k] < offset + list@.len(),
        decreases key@.len() - j,
    {
        match copy_of(list, offset, key[j]) {
            Some(c) => {
                mapped.push(c);
                proof {
                    assert(key@.take(j + 1).drop_last() =~= key@.take(j as int));
                    assert(mapped@ =~= mapped_key(key@.take(j + 1), list@, offset as int));
                    assert forall|k: int| 0 <= k < j + 1 implies list@.contains(#[trigger] key@.take(j + 1)[k]) by {
                        if k < j {
                            assert(key@.take(j as int)[k] == key@.take(j + 1)[k]);
                        }
                    }
                }
            },
            None => {
                proof {
                    assert(!list@.contains(key@[j as int]));
                }
                return None;
            },
        }
        j = j + 1;
    }
    assert(key@.take(key@.len() as int) =~= key@);
    let copy = face_key(mapped.as_slice());
    proof {
        assert forall|k: int| 0 <= k < copy@.len() implies #[trigger] copy@[k] < offset + list@.len() by {
            assert(copy@.contains(copy@[k]));
            assert(mapped@.contains(copy@[k]));
        }
    }
    Some(copy)
}

} // verus!

verus! {

impl Mesh {
    /// Copies the vertices of `vertices` to the end of the mesh, on their layers, with
    /// copies of the edges, holes and colours among them. Returns the indices of the
    /// copies, in the order of `vertices`.
    fn copy_vertices(&mut self, vertices: &[usize]) -> (copies: Vec<usize>)
        requires
            old(self)@.well_formed(),
            forall|i: int| 0 <= i < vertices@.len() ==> #[trigger] vertices@[i] < old(self).vertices@.len(),
            old(self).vertices@.len() + vertices@.len() <= usize::MAX,
        ensures
            final(self)@ == copied(old(self)@, vertices@),
            final(self)@.well_formed(),
            copies@ == index_range(old(self)@.vertices.len() as int, vertices@.len() as int),
    {
        let ghost before = self@;
        let ghost list = vertices@;
        let offset = self.vertices.len();
        let mut copies: Vec<usize> = Vec::new();
        let mut i: usize = 0;
        while i < vertices.len()
            invariant
                i <= list.len(),
                list == vertices@,
                offset == before.vertices.len(),
                offset == before.vertex_layers.len(),
                offset + list.len() <= usize::MAX,
                forall|k: int| 0 <= k < list.len() ==> #[trigger] list[k] < offset,
                self@ == (MeshView {
                    vertices: before.vertices + copied_positions(before, list.take(i as int)),
                    vertex_layers: before.vertex_layers + copied_layers(before, list.take(i as int)),
                    ..before
                }),
                copies@ == index_range(offset as int, i as int),
            decreases list.len() - i,
        {
            let v = vertices[i];
            assert(self@.vertices.len() == self.vertices@.len());
            assert(self@.vertex_layers.len() == self.vertex_layers@.len());
            let pos = self.vertices[v];
            let layer = self.vertex_layers[v];
            assert(self@.vertices[v as int] == pos);
            assert(self@.vertex_layers[v as int] == layer);
            let ghost prior_vertices = self.vertices@;
            let ghost prior_layers = self.vertex_layers@;
            self.vertices.push(pos);
            self.vertex_layers.push(layer);
            copies.push(offset + i);
            proof {
                assert(list.take(i + 1) =~= list.take(i as int).push(v));
                assert(views(prior_vertices.push(pos)) =~= views(prior_vertices).push(pos));
                assert(views(prior_layers.push(layer)) =~= views(prior_layers).push(layer));
                assert(self@.vertices =~= before.vertices + copied_positions(before, list.take(i + 1)));
                assert(self@.vertex_layers =~= before.vertex_layers + copied_layers(before, list.take(i + 1)));
                assert(copies@ =~= index_range(offset as int, i + 1));
                assert(self@ =~= MeshView {
                    vertices: before.vertices + copied_positions(before, list.take(i + 1)),
                    vertex_layers: before.vertex_layers + copied_layers(before, list.take(i + 1)),
                    ..before
                });
            }
            i = i + 1;
        }
        proof {
            assert(list.take(list.len() as int) =~= list);
        }
        let ghost mid = self@;
        let total = offset + vertices.len();
        let count = self.edges.len();
        let mut index: usize = 0;
        while index < count
            invariant
                index <= count == before.edges.len(),
                list == vertices@,
                offset == before.vertices.len(),
                total == offset + list.len(),
                self@ == (MeshView { edges: before.edges + copied_edges(before.edges.take(index as int), list, offset as int), ..mid }),
                edges_below_from(self@.edges, before.edges.len() as int, total as int),
            decreases count - index,
        {
            assert(self@.edges.len() == self.edges@.len());
            assert(self@.edges[index as int] == self.edges@[index as int]@);
            let e = self.edges[index];
            let ghost prior_edges = self.edges@;
            assert(e@ == before.edges[index as int]);
            let ca = copy_of(vertices, offset, e[0]);
            let cb = copy_of(vertices, offset, e[1]);
            proof {
                assert(before.edges.take(index + 1).drop_last() =~= before.edges.take(index as int));
                assert(before.edges.take(index + 1).last() == e@);
            }
            match (ca, cb) {
                (Some(a), Some(b)) => {
                    let edge = [a, b];
                    self.edges.push(edge);
                    proof {
                        assert(views(prior_edges.push(edge)) =~= views(prior_edges).push(edge@));
                        assert(edge@ =~= seq![copy_index(list, offset as int, e[0]), copy_index(list, offset as int, e[1])]);
                        assert(self@.edges =~= before.edges + copied_edges(before.edges.take(index + 1), list, offset as int));
                    }
                },
                _ => {},
            }
            proof {
                assert(self@ =~= MeshView { edges: before.edges + copied_edges(before.edges.take(index + 1), list, offset as int), ..mid });
            }
            index = index + 1;
        }
        proof {
            assert(before.edges.take(count as int) =~= before.edges);
        }
        let ghost mid = self@;
        let count = self.holes.len();
        let mut index: usize = 0;
        while index < count
            invariant
                index <= count == before.holes.len(),
                list == vertices@,
                offset == before.vertices.len(),
                total == offset + list.len(),
                self@ == (MeshView { holes: before.holes + copied_keys(before.holes.take(index as int), list, offset as int), ..mid }),
                edges_below_from(self@.edges, before.edges.len() as int, total as int),
                keys_below_from(self@.holes, before.holes.len() as int, total as int),
            decreases count - index,
        {
            assert(self@.holes.len() == self.holes@.len());
            assert(self@.holes[index as int] == self.holes@[index as int]@);
            let copy = copy_key(self.holes[index].as_slice(), vertices, offset);
            let ghost prior_holes = self.holes@;
            let ghost key = before.holes[index as int];
            proof {
                assert(before.holes.take(index + 1).drop_last() =~= before.holes.take(index as int));
                assert(before.holes.take(index + 1).last() == key);
            }
            match copy {
                Some(k) => {
                    let ghost kv = k@;
                    self.holes.push(k);
                    proof {
                        assert(views(prior_holes.push(k)) =~= views(prior_holes).push(kv));
                        assert(self@.holes =~= before.holes + copied_keys(before.holes.take(index + 1), list, offset as int));
                    }
                },
                None => {},
            }
            proof {
                assert(self@ =~= MeshView { holes: before.holes + copied_keys(before.holes.take(index + 1), list, offset as int), ..mid });
            }
            index = index + 1;
        }
        proof {
            assert(before.holes.take(count as int) =~= before.holes);
        }
        let ghost mid = self@;
        let count = self.colors.len();
        let mut index: usize = 0;
        while index < count
            invariant
                index <= count == before.colors.len(),
                list == vertices@,
                offset == before.vertices.len(),
                total == offset + list.len(),
                self@ == (MeshView { colors: before.colors + copied_colors(before.colors.take(index as int), list, offset as int), ..mid }),
                edges_below_from(self@.edges, before.edges.len() as int, total as int),
                keys_below_from(self@.holes, before.holes.len() as int, total as int),
                keys_below_from(color_keys(self@.colors), before.colors.len() as int, total as int),
            decreases count - index,
        {
            assert(self@.colors.len() == self.colors@.len());
            assert(self@.colors[index as int] == self.colors@[index as int]@);
            let copy = copy_key(self.colors[index].0.as_slice(), vertices, offset);
            let color = self.colors[index].1;
            let ghost prior_colors = self.colors@;
            let ghost entry = before.colors[index as int];
            proof {
                assert(before.colors.take(index + 1).drop_last() =~= before.colors.take(index as int));
                assert(before.colors.take(index + 1).last() == entry);
            }
            match copy {
                Some(k) => {
                    let ghost kv = k@;
                    self.colors.push((k, color));
                    proof {
                        assert(views(prior_colors.push((k, color))) =~= views(prior_colors).push((kv, color)));
                        assert(self@.colors =~= before.colors + copied_colors(before.colors.take(index + 1), list, offset as int));
                        let keys = color_keys(self@.colors);
                        let prior_keys = color_keys(views(prior_colors));
                        assert forall|m: int, j: int| before.colors.len() <= m < keys.len() && 0 <= j < keys[m].len() implies #[trigger] keys[m][j] < total by {
                            if m < prior_keys.len() {
                                assert(keys[m] == prior_keys[m]);
                            } else {
                                assert(keys[m] == kv);
                            }
                        }
                    }
                },
                None => {},
            }
            proof {
                assert(self@ =~= MeshView { colors: before.colors + copied_colors(before.colors.take(index + 1), list, offset as int), ..mid });
            }
            index = index + 1;
        }
        proof {
            assert(before.colors.take(count as int) =~= before.colors);
            assert(self@ =~= copied(before, list));
            lemma_copied_well_formed(before, list, self@, total as int);
        }
        copies
    }
}

} // verus!

verus! {

/// Every edge from position `start` on joins two vertices below `total`.
pub open spec fn edges_below_from(edges: Seq<Seq<usize>>, start: int, total: int) -> bool {
    forall|k: int| start <= k < edges.len() ==> #[trigger] edges[k].len() == 2 && edges[k][0] < total && edges[k][1] < total
}

/// Every key from position `start` on names vertices below `total` only.
pub open spec fn keys_below_from(keys: Seq<Seq<usize>>, start: int, total: int) -> bool {
    forall|k: int, j: int| start <= k < keys.len() && 0 <= j < keys[k].len() ==> #[trigger] keys[k][j] < total
}

/// A mesh with copies added stays well formed, given that the new edges and keys name
/// vertices below `total`, the new number of vertices.
proof fn lemma_copied_well_formed(before: MeshView, list: Seq<usize>, after: MeshView, total: int)
    requires
        before.well_formed(),
        forall|k: int| 0 <= k < list.len() ==> #[trigger] list[k] < before.vertices.len(),
        after == copied(before, list),
        total == before.vertices.len() + list.len(),
        edges_below_from(after.edges, before.edges.len() as int, total),
        keys_below_from(after.holes, before.holes.len() as int, total),
        keys_below_from(color_keys(after.colors), before.colors.len() as int, total),
    ensures
        after.well_formed(),
{
    let n = before.vertices.len();
    assert(after.vertices.len() == total);
    assert forall|v: int| 0 <= v < after.vertex_layers.len() implies layer_exists(after.layers, #[trigger] after.vertex_layers[v]) by {
        if v < n {
            assert(after.vertex_layers[v] == before.vertex_layers[v]);
        } else {
            assert(after.vertex_layers[v] == before.vertex_layers[list[v - n] as int]);
        }
    }
    assert forall|i: int| 0 <= i < after.edges.len() implies #[trigger] after.edges[i].len() == 2
        && after.edges[i][0] < after.vertices.len() && after.edges[i][1] < after.vertices.len() by {
        if i < before.edges.len() {
            assert(after.edges[i] == before.edges[i]);
        }
    }
    assert forall|i: int, j: int| 0 <= i < after.holes.len() && 0 <= j < after.holes[i].len() implies after.holes[i][j] < after.vertices.len() by {
        if i < before.holes.len() {
            assert(after.holes[i] == before.holes[i]);
        }
    }
    assert forall|i: int, j: int| 0 <= i < color_keys(after.colors).len() && 0 <= j < color_keys(after.colors)[i].len()
        implies color_keys(after.colors)[i][j] < after.vertices.len() by {
        assert(color_keys(after.colors)[i] == after.colors[i].0);
        if i < before.colors.len() {
            assert(after.colors[i] == before.colors[i]);
            assert(color_keys(before.colors)[i] == before.colors[i].0);
        }
    }
}

} // verus!

verus! {

impl Mesh {
    /// Copies the given vertices, joins each copy to its source, and gives each component
    /// a layer of its own (new layers go below the ones they split from). Returns the
    /// indices of the copies, in the order of `vertices`.
    pub fn extrude(&mut self, vertices: &[usize]) -> (copies: Vec<usize>)
        requires
            old(self)@.well_formed(),
            forall|i: int| 0 <= i < vertices@.len() ==> #[trigger] vertices@[i] < old(self).vertices@.len(),
            old(self).layers@.len() + old(self).vertices@.len() + vertices@.len() < u32::MAX,
        ensures
            synced(extruded(old(self)@, vertices@), final(self)@),
            final(self)@ == crate::sync::sync_result(extruded(old(self)@, vertices@), false),
            copies@ == index_range(old(self)@.vertices.len() as int, vertices@.len() as int),
    {
        let ghost before = self@;
        let copies = self.copy_vertices(vertices);
        let ghost mid = self@;
        let mut i: usize = 0;
        while i < vertices.len()
            invariant
                i <= vertices@.len(),
                copies@ == index_range(before.vertices.len() as int, vertices@.len() as int),
                forall|k: int| 0 <= k < vertices@.len() ==> #[trigger] vertices@[k] < before.vertices.len(),
                mid == copied(before, vertices@),
                mid.well_formed(),
                self@ == (MeshView {
                    edges: mid.edges + Seq::new(i as nat, |k: int| seq![vertices@[k], (before.vertices.len() + k) as usize]),
                    ..mid
                }),
            decreases vertices@.len() - i,
        {
            let edge = [vertices[i], copies[i]];
            let ghost prior_edges = self.edges@;
            self.edges.push(edge);
            proof {
                assert(views(prior_edges.push(edge)) =~= views(prior_edges).push(edge@));
                assert(self@ =~= MeshView {
                    edges: mid.edges + Seq::new((i + 1) as nat, |k: int| seq![vertices@[k], (before.vertices.len() + k) as usize]),
                    ..mid
                });
            }
            i = i + 1;
        }
        proof {
            let after = self@;
            assert(after =~= extruded(before, vertices@));
            assert forall|k: int| 0 <= k < after.edges.len() implies #[trigger] after.edges[k].len() == 2
                && after.edges[k][0] < after.vertices.len() && after.edges[k][1] < after.vertices.len() by {
                if k < mid.edges.len() {
                    assert(after.edges[k] == mid.edges[k]);
                }
            }
            assert(after.well_formed());
            assert(self.layers@.len() == after.layers.len() && self.vertices@.len() == after.vertices.len());
        }
        self.sync_layers(false);
        copies
    }

    /// Copies the given vertices and gives each component a layer of its own (new layers
    /// go above the ones they split from). Returns the indices of the copies, in the
    /// order of `vertices`.
    pub fn duplicate(&mut self, vertices: &[usize]) -> (copies: Vec<usize>)
        requires
            old(self)@.well_formed(),
            forall|i: int| 0 <= i < vertices@.len() ==> #[trigger] vertices@[i] < old(self).vertices@.len(),
            old(self).layers@.len() + old(self).vertices@.len() + vertices@.len() < u32::MAX,
        ensures
            synced(copied(old(self)@, vertices@), final(self)@),
            final(self)@ == crate::sync::sync_result(copied(old(self)@, vertices@), true),
            copies@ == index_range(old(self)@.vertices.len() as int, vertices@.len() as int),
    {
        let copies = self.copy_vertices(vertices);
        assert(self.layers@.len() == self@.layers.len() && self.vertices@.len() == self@.vertices.len());
        self.sync_layers(true);
        copies
    }
}

} // verus!

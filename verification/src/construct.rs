use crate::graph::{keys_below, layer_exists};
use crate::history::views;
use crate::layers::{blank_layer, is_fresh_id, lemma_exists_after_insert};
use crate::mesh::{Layer, Mesh, MeshView, Point};
use crate::sync::synced;
use vstd::prelude::*;

verus! {

broadcast use vstd::seq_lib::group_seq_properties;

/// The edges that close the points `offset .. offset + count` into a loop, each point
/// joined to the next and the last to the first.
pub open spec fn loop_edges(offset: int, count: int) -> Seq<Seq<usize>> {
    Seq::new(count as nat, |i: int| seq![(offset + i) as usize, (offset + (i + 1) % count) as usize])
}

/// The indices `offset .. offset + count`.
pub open spec fn index_range(offset: int, count: int) -> Seq<usize> {
    Seq::new(count as nat, |i: int| (offset + i) as usize)
}

/// A mesh to which an edge from `a` to `b` was added.
pub open spec fn with_edge(mesh: MeshView, a: usize, b: usize) -> MeshView {
    MeshView { edges: mesh.edges.push(seq![a, b]), ..mesh }
}

/// Every index below `n` is below any larger `m`.
pub proof fn lemma_keys_below_grow(keys: Seq<Seq<usize>>, n: nat, m: nat)
    requires
        keys_below(keys, n),
        n <= m,
    ensures
        keys_below(keys, m),
{
}

/// A mesh stays well formed when a layer goes on top, vertices on that layer go at the
/// end, and edges between existing vertices go at the end.
#[verifier::spinoff_prover]
proof fn lemma_grown_well_formed(before: MeshView, after: MeshView, layer: crate::mesh::LayerView)
    requires
        before.well_formed(),
        after.layers == before.layers.insert(0, layer),
        after.vertices.len() == after.vertex_layers.len() >= before.vertices.len(),
        after.vertex_layers.take(before.vertex_layers.len() as int) == before.vertex_layers,
        forall|v: int| before.vertex_layers.len() <= v < after.vertex_layers.len() ==> #[trigger] after.vertex_layers[v] == layer.id,
        after.edges.take(before.edges.len() as int) == before.edges,
        after.edges.len() >= before.edges.len(),
        forall|i: int| before.edges.len() <= i < after.edges.len() ==> #[trigger] after.edges[i].len() == 2
            && after.edges[i][0] < after.vertices.len() && after.edges[i][1] < after.vertices.len(),
        after.holes == before.holes,
        after.colors == before.colors,
    ensures
        after.well_formed(),
{
    lemma_keys_below_grow(before.holes, before.vertices.len(), after.vertices.len());
    lemma_keys_below_grow(crate::graph::color_keys(before.colors), before.vertices.len(), after.vertices.len());
    assert forall|x: u32| layer_exists(before.layers, x) implies layer_exists(after.layers, x) by {
        lemma_exists_after_insert(before.layers, layer, x);
    }
    assert(layer_exists(after.layers, layer.id)) by {
        assert(after.layers[0].id == layer.id);
    }
    assert forall|v: int| 0 <= v < after.vertex_layers.len() implies layer_exists(after.layers, #[trigger] after.vertex_layers[v]) by {
        if v < before.vertex_layers.len() {
            assert(after.vertex_layers.take(before.vertex_layers.len() as int)[v] == before.vertex_layers[v]);
            assert(layer_exists(before.layers, before.vertex_layers[v]));
        }
    }
    assert forall|i: int| 0 <= i < after.edges.len() implies #[trigger] after.edges[i].len() == 2
        && after.edges[i][0] < after.vertices.len() && after.edges[i][1] < after.vertices.len() by {
        if i < before.edges.len() {
            assert(after.edges.take(before.edges.len() as int)[i] == before.edges[i]);
        }
    }
}

impl Mesh {
    /// Adds a vertex at `pos` on a new layer of its own, at the top of the layer list.
    /// Returns the index of the vertex.
    pub fn add_vertex(&mut self, pos: Point) -> (index: usize)
        requires
            old(self).layers@.len() < u32::MAX,
            old(self).vertices@.len() < usize::MAX,
            old(self).vertex_layers@.len() < usize::MAX,
        ensures
            ({
                let id = final(self)@.layers[0].id;
                &&& is_fresh_id(old(self)@.layers, id)
                &&& final(self)@.layers == old(self)@.layers.insert(0, blank_layer(id, false))
                &&& final(self)@.vertex_layers == old(self)@.vertex_layers.push(id)
            }),
            final(self)@.vertices == old(self)@.vertices.push(pos),
            index == old(self)@.vertices.len(),
            final(self)@.edges == old(self)@.edges,
            final(self)@.holes == old(self)@.holes,
            final(self)@.colors == old(self)@.colors,
            final(self)@.images == old(self)@.images,
            old(self)@.well_formed() ==> final(self)@.well_formed(),
    {
        let id = self.new_layer();
        let layer = Layer { id, curve: false, holdout: false, name: String::new() };
        self.layers.insert(0, layer);
        self.vertex_layers.push(id);
        self.vertices.push(pos);
        proof {
            let (before, after) = (old(self)@, self@);
            assert(after.layers =~= before.layers.insert(0, blank_layer(id, false)));
            assert(after.vertex_layers =~= before.vertex_layers.push(id));
            assert(after.vertices =~= before.vertices.push(pos));
            assert(after.vertex_layers.take(before.vertex_layers.len() as int) =~= before.vertex_layers);
            assert(after.edges.take(before.edges.len() as int) =~= before.edges);
            if before.well_formed() {
                lemma_grown_well_formed(before, after, blank_layer(id, false));
            }
        }
        self.vertices.len() - 1
    }

    /// Adds a closed loop through `points` on a new layer of its own, at the top of the
    /// layer list; `curve` tells whether the layer draws its outline as a curve.
    /// Returns the indices of the new vertices.
    pub fn add_loop(&mut self, points: &[Point], curve: bool) -> (added: Vec<usize>)
        requires
            old(self).layers@.len() < u32::MAX,
            old(self).vertices@.len() + points@.len() <= usize::MAX,
            old(self).vertex_layers@.len() == old(self).vertices@.len(),
        ensures
            ({
                let id = final(self)@.layers[0].id;
                &&& is_fresh_id(old(self)@.layers, id)
                &&& final(self)@.layers == old(self)@.layers.insert(0, blank_layer(id, curve))
                &&& final(self)@.vertex_layers == old(self)@.vertex_layers + Seq::new(points@.len(), |i: int| id)
            }),
            final(self)@.vertices == old(self)@.vertices + points@,
            final(self)@.edges == old(self)@.edges + loop_edges(old(self)@.vertices.len() as int, points@.len() as int),
            added@ == index_range(old(self)@.vertices.len() as int, points@.len() as int),
            final(self)@.holes == old(self)@.holes,
            final(self)@.colors == old(self)@.colors,
            final(self)@.images == old(self)@.images,
            old(self)@.well_formed() ==> final(self)@.well_formed(),
    {
        let id = self.new_layer();
        let layer = Layer { id, curve, holdout: false, name: String::new() };
        self.layers.insert(0, layer);
        let ghost before = old(self)@;
        let ghost layers = self@.layers;
        proof {
            assert(layers =~= before.layers.insert(0, blank_layer(id, curve)));
        }
        let offset = self.vertices.len();
        let count = points.len();
        let mut added: Vec<usize> = Vec::new();
        let mut index: usize = 0;
        while index < count
            invariant
                index <= count == points@.len(),
                offset == before.vertices.len(),
                offset + count <= usize::MAX,
                self@.layers == layers,
                self@.vertices == before.vertices + points@.take(index as int),
                self@.vertex_layers == before.vertex_layers + Seq::new(index as nat, |i: int| id),
                self@.edges == before.edges + loop_edges(offset as int, count as int).take(index as int),
                added@ == index_range(offset as int, index as int),
                self@.holes == before.holes,
                self@.colors == before.colors,
                self@.images == before.images,
            decreases count - index,
        {
            let ghost prior = self@;
            let ghost prior_vertices = self.vertices@;
            let ghost prior_layers = self.vertex_layers@;
            self.vertices.push(points[index]);
            self.vertex_layers.push(id);
            let next = (index + 1) % count;
            let ghost prior_edges = self.edges@;
            let edge = [offset + index, offset + next];
            self.edges.push(edge);
            added.push(offset + index);
            proof {
                assert(self.vertices@ == prior_vertices.push(points@[index as int]));
                assert(views(prior_vertices.push(points@[index as int])) =~= views(prior_vertices).push(points@[index as int]));
                assert(self@.vertices =~= before.vertices + points@.take(index + 1));
                assert(views(prior_layers.push(id)) =~= views(prior_layers).push(id));
                assert(self@.vertex_layers =~= before.vertex_layers + Seq::new((index + 1) as nat, |i: int| id));
                assert(edge@ =~= loop_edges(offset as int, count as int)[index as int]);
                assert(views(prior_edges.push(edge)) =~= views(prior_edges).push(edge@));
                assert(self@.edges =~= before.edges + loop_edges(offset as int, count as int).take(index + 1));
                assert(added@ =~= index_range(offset as int, index + 1));
            }
            index = index + 1;
        }
        proof {
            let after = self@;
            assert(points@.take(count as int) =~= points@);
            assert(after.vertex_layers.take(before.vertex_layers.len() as int) =~= before.vertex_layers);
            assert(after.edges.take(before.edges.len() as int) =~= before.edges);
            if before.well_formed() {
                assert forall|i: int| before.edges.len() <= i < after.edges.len() implies #[trigger] after.edges[i].len() == 2
                    && after.edges[i][0] < after.vertices.len() && after.edges[i][1] < after.vertices.len() by {
                    let k = i - before.edges.len();
                    assert(after.edges[i] == loop_edges(offset as int, count as int)[k]);
                }
                lemma_grown_well_formed(before, after, blank_layer(id, curve));
            }
        }
        added
    }

    /// Joins `a` and `b` with an edge, unless they are the same vertex or already
    /// joined, and then gives each component a layer of its own (see `sync_layers`).
    pub fn add_edge(&mut self, a: usize, b: usize)
        requires
            old(self)@.well_formed(),
            a < old(self).vertices@.len(),
            b < old(self).vertices@.len(),
            old(self).layers@.len() + old(self).vertices@.len() < u32::MAX,
        ensures
            if a == b || crate::graph::adjacent(old(self)@.edges, a, b) {
                final(self)@ == old(self)@
            } else {
                synced(with_edge(old(self)@, a, b), final(self)@)
                    && final(self)@ == crate::sync::sync_result(with_edge(old(self)@, a, b), false)
            },
    {
        if a == b || self.has_edge(a, b) {
            return;
        }
        self.edges.push([a, b]);
        proof {
            let (before, after) = (old(self)@, self@);
            assert(after =~= with_edge(before, a, b));
            assert(after.well_formed()) by {
                assert forall|i: int| 0 <= i < after.edges.len() implies #[trigger] after.edges[i].len() == 2
                    && after.edges[i][0] < after.vertices.len() && after.edges[i][1] < after.vertices.len() by {
                    if i < before.edges.len() {
                        assert(after.edges[i] == before.edges[i]);
                    }
                }
            }
        }
        self.sync_layers(false);
    }
}

} // verus!

use crate::element::Element;
use crate::faces::{face_key, is_key_of, key_of};
use crate::graph::{adjacent, color_keys, keys_below, layer_exists};
use crate::history::views;
use crate::mesh::{Image, Mesh, MeshView, Point, Rgba};
use crate::removal::{distinct, kept, lemma_kept, without};
use crate::sync::synced;
use vstd::prelude::*;

verus! {

broadcast use vstd::seq_lib::group_seq_properties;

/// The edges that do not touch `v`, in their order.
pub open spec fn edges_off(edges: Seq<Seq<usize>>, v: usize) -> Seq<Seq<usize>>
    decreases edges.len(),
{
    if edges.len() == 0 {
        Seq::empty()
    } else {
        let prior = edges_off(edges.drop_last(), v);
        let e = edges.last();
        if e[0] == v || e[1] == v { prior } else { prior.push(e) }
    }
}

/// The other ends of the edges that touch `v`, in the order of the edges.
pub open spec fn other_ends(edges: Seq<Seq<usize>>, v: usize) -> Seq<usize>
    decreases edges.len(),
{
    if edges.len() == 0 {
        Seq::empty()
    } else {
        let prior = other_ends(edges.drop_last(), v);
        let e = edges.last();
        if e[0] == v { prior.push(e[1]) } else if e[1] == v { prior.push(e[0]) } else { prior }
    }
}

/// The edges once `v` is dissolved: its edges go, and where it had exactly two
/// neighbours that no edge joins yet, an edge joins them.
pub open spec fn dissolve_step(edges: Seq<Seq<usize>>, v: usize) -> Seq<Seq<usize>> {
    let rest = edges_off(edges, v);
    let ends = other_ends(edges, v);
    if ends.len() == 2 && !adjacent(rest, ends[0], ends[1]) {
        rest.push(seq![ends[0], ends[1]])
    } else {
        rest
    }
}

/// The edges once the vertices of `list` are dissolved one after the other.
pub open spec fn dissolved_edges(edges: Seq<Seq<usize>>, list: Seq<usize>) -> Seq<Seq<usize>>
    decreases list.len(),
{
    if list.len() == 0 {
        edges
    } else {
        dissolve_step(dissolved_edges(edges, list.drop_last()), list.last())
    }
}

/// Whether every edge joins two vertices below `n`.
pub open spec fn edges_within(edges: Seq<Seq<usize>>, n: nat) -> bool {
    forall|i: int| 0 <= i < edges.len() ==> #[trigger] edges[i].len() == 2 && edges[i][0] < n && edges[i][1] < n
}

#[verifier::spinoff_prover]
proof fn lemma_dissolve_step(edges: Seq<Seq<usize>>, v: usize, n: nat)
    requires
        edges_within(edges, n),
    ensures
        edges_within(edges_off(edges, v), n),
        forall|j: int| 0 <= j < other_ends(edges, v).len() ==> #[trigger] other_ends(edges, v)[j] < n,
        edges_within(dissolve_step(edges, v), n),
    decreases edges.len(),
{
    if edges.len() > 0 {
        let prior = edges.drop_last();
        assert(edges_within(prior, n)) by {
            assert forall|i: int| 0 <= i < prior.len() implies #[trigger] prior[i].len() == 2 && prior[i][0] < n && prior[i][1] < n by {
                assert(prior[i] == edges[i]);
            }
        }
        lemma_dissolve_step(prior, v, n);
        let e = edges.last();
        assert(edges[edges.len() - 1] == e);
        let (now, before) = (edges_off(edges, v), edges_off(prior, v));
        assert forall|i: int| 0 <= i < now.len() implies #[trigger] now[i].len() == 2 && now[i][0] < n && now[i][1] < n by {
            if i < before.len() {
                assert(now[i] == before[i]);
            }
        }
        let (ends, prior_ends) = (other_ends(edges, v), other_ends(prior, v));
        assert forall|j: int| 0 <= j < ends.len() implies #[trigger] ends[j] < n by {
            if j < prior_ends.len() {
                assert(ends[j] == prior_ends[j]);
            }
        }
    }
    let rest = edges_off(edges, v);
    let ends = other_ends(edges, v);
    let step = dissolve_step(edges, v);
    assert(forall|j: int| 0 <= j < ends.len() ==> #[trigger] ends[j] < n);
    assert forall|i: int| 0 <= i < step.len() implies #[trigger] step[i].len() == 2 && step[i][0] < n && step[i][1] < n by {
        if i < rest.len() {
            assert(step[i] == rest[i]);
        } else {
            assert(ends.len() == 2);
            assert(step[i] == seq![ends[0], ends[1]]);
            assert(ends[0] < n && ends[1] < n);
        }
    }
    assert(edges_within(step, n));
}

proof fn lemma_dissolved_edges(edges: Seq<Seq<usize>>, list: Seq<usize>, n: nat)
    requires
        edges_within(edges, n),
    ensures
        edges_within(dissolved_edges(edges, list), n),
    decreases list.len(),
{
    if list.len() > 0 {
        lemma_dissolved_edges(edges, list.drop_last(), n);
        lemma_dissolve_step(dissolved_edges(edges, list.drop_last()), list.last(), n);
    }
}

/// Dissolving vertices keeps a mesh well formed.
proof fn lemma_bridged_well_formed(mesh: MeshView, list: Seq<usize>)
    requires
        mesh.well_formed(),
    ensures
        bridged(mesh, list).well_formed(),
{
    let n = mesh.vertices.len();
    assert forall|i: int| 0 <= i < mesh.edges.len() implies #[trigger] mesh.edges[i].len() == 2
        && mesh.edges[i][0] < n && mesh.edges[i][1] < n by {
        assert(mesh.well_formed());
        assert(mesh.edges[i].len() == 2);
        assert(mesh.edges[i][0] < n);
    }
    assert(edges_within(mesh.edges, n));
    lemma_dissolved_edges(mesh.edges, list, n);
    let after = bridged(mesh, list);
    assert forall|i: int| 0 <= i < after.edges.len() implies #[trigger] after.edges[i].len() == 2
        && after.edges[i][0] < after.vertices.len() && after.edges[i][1] < after.vertices.len() by {
        assert(dissolved_edges(mesh.edges, list)[i].len() == 2);
        assert(after.edges[i][0] < n);
        assert(after.edges[i][1] < n);
    }
}

/// Whether some edge of `edges` joins `a` and `b`, in either direction.
fn edge_listed(edges: &Vec<[usize; 2]>, a: usize, b: usize) -> (found: bool)
    ensures
        found == adjacent(views(edges@), a, b),
{
    let ghost list = views(edges@);
    let mut i: usize = 0;
    while i < edges.len()
        invariant
            i <= edges@.len(),
            list == views(edges@),
            forall|j: int| 0 <= j < i ==> !((list[j][0] == a && list[j][1] == b) || (list[j][0] == b && list[j][1] == a)),
        decreases edges@.len() - i,
    {
        let edge = edges[i];
        assert(list[i as int] == edge@);
        if (edge[0] == a && edge[1] == b) || (edge[0] == b && edge[1] == a) {
            return true;
        }
        i = i + 1;
    }
    false
}

/// The edges once `v` is dissolved.
fn dissolve_vertex(edges: &Vec<[usize; 2]>, v: usize) -> (result: Vec<[usize; 2]>)
    ensures
        views(result@) == dissolve_step(views(edges@), v),
{
    let ghost all = views(edges@);
    let mut rest: Vec<[usize; 2]> = Vec::new();
    let mut ends: Vec<usize> = Vec::new();
    let mut i: usize = 0;
    while i < edges.len()
        invariant
            i <= edges@.len(),
            all == views(edges@),
            views(rest@) == edges_off(all.take(i as int), v),
            ends@ == other_ends(all.take(i as int), v),
        decreases edges@.len() - i,
    {
        let e = edges[i];
        assert(all[i as int] == e@);
        let ghost prior = rest@;
        if e[0] == v {
            ends.push(e[1]);
        } else if e[1] == v {
            ends.push(e[0]);
        }
        if e[0] != v && e[1] != v {
            rest.push(e);
            assert(views(prior.push(e)) =~= views(prior).push(e@));
        }
        proof {
            assert(all.take(i + 1).drop_last() =~= all.take(i as int));
            assert(all.take(i + 1).last() == e@);
            assert(views(rest@) =~= edges_off(all.take(i + 1), v));
            assert(ends@ =~= other_ends(all.take(i + 1), v));
        }
        i = i + 1;
    }
    assert(all.take(all.len() as int) =~= all);
    if ends.len() == 2 && !edge_listed(&rest, ends[0], ends[1]) {
        let ghost prior = rest@;
        let edge = [ends[0], ends[1]];
        rest.push(edge);
        assert(views(prior.push(edge)) =~= views(prior).push(edge@));
        assert(edge@ =~= seq![ends@[0], ends@[1]]);
    }
    rest
}

/// A mesh whose edges are those left once the vertices of `list` are dissolved one
/// after the other.
pub open spec fn bridged(mesh: MeshView, list: Seq<usize>) -> MeshView {
    MeshView { edges: dissolved_edges(mesh.edges, list), ..mesh }
}

impl Mesh {
    /// Dissolves the given vertices, each listed once: one after the other, each loses
    /// its edges, and where it had exactly two neighbours that no edge joins yet, an edge
    /// joins them; then the vertices go (see `remove_vertices`).
    pub fn dissolve(&mut self, vertices: Vec<usize>)
        requires
            old(self)@.well_formed(),
            distinct(vertices@),
            forall|i: int| 0 <= i < vertices@.len() ==> #[trigger] vertices@[i] < old(self).vertices@.len(),
            old(self).layers@.len() + old(self).vertices@.len() < u32::MAX,
        ensures
            synced(without(bridged(old(self)@, vertices@), vertices@), final(self)@),
            final(self)@ == crate::sync::sync_result(without(bridged(old(self)@, vertices@), vertices@), false),
    {
        let ghost before = self@;
        let mut k: usize = 0;
        while k < vertices.len()
            invariant
                k <= vertices@.len(),
                self@ == (MeshView { edges: dissolved_edges(before.edges, vertices@.take(k as int)), ..before }),
            decreases vertices@.len() - k,
        {
            let edges = dissolve_vertex(&self.edges, vertices[k]);
            self.edges = edges;
            proof {
                assert(vertices@.take(k + 1).drop_last() =~= vertices@.take(k as int));
                assert(vertices@.take(k + 1).last() == vertices@[k as int]);
                assert(self@ =~= MeshView { edges: dissolved_edges(before.edges, vertices@.take(k + 1)), ..before });
            }
            k = k + 1;
        }
        proof {
            assert(vertices@.take(vertices@.len() as int) =~= vertices@);
            assert(self@ == bridged(before, vertices@));
            lemma_bridged_well_formed(before, vertices@);
        }
        assert(self.layers@.len() == self@.layers.len() && self.vertices@.len() == self@.vertices.len());
        self.remove_vertices(vertices);
    }
}

} // verus!

verus! {

/// What vertex `v` becomes when the vertices of `list` merge into `target`.
pub open spec fn merge_map(list: Seq<usize>, target: usize, v: usize) -> usize {
    if list.contains(v) { target } else { v }
}

/// The edges once the vertices of `list` merge into `target`: each edge with its ends
/// mapped, except those that would join a vertex to itself or repeat an earlier edge.
pub open spec fn merged_edges(edges: Seq<Seq<usize>>, list: Seq<usize>, target: usize) -> Seq<Seq<usize>>
    decreases edges.len(),
{
    if edges.len() == 0 {
        Seq::empty()
    } else {
        let prior = merged_edges(edges.drop_last(), list, target);
        let (a, b) = (merge_map(list, target, edges.last()[0]), merge_map(list, target, edges.last()[1]));
        if a != b && !adjacent(prior, a, b) { prior.push(seq![a, b]) } else { prior }
    }
}

/// A key with its vertices mapped.
pub open spec fn merged_key(key: Seq<usize>, list: Seq<usize>, target: usize) -> Seq<usize>
    decreases key.len(),
{
    if key.len() == 0 {
        Seq::empty()
    } else {
        merged_key(key.drop_last(), list, target).push(merge_map(list, target, key.last()))
    }
}

/// The keys of the faces once their vertices are mapped.
pub open spec fn merged_keys(keys: Seq<Seq<usize>>, list: Seq<usize>, target: usize) -> Seq<Seq<usize>>
    decreases keys.len(),
{
    if keys.len() == 0 {
        Seq::empty()
    } else {
        merged_keys(keys.drop_last(), list, target).push(key_of(merged_key(keys.last(), list, target)))
    }
}

/// The colours of the faces once their vertices are mapped.
pub open spec fn merged_colors(colors: Seq<(Seq<usize>, Rgba)>, list: Seq<usize>, target: usize) -> Seq<(Seq<usize>, Rgba)>
    decreases colors.len(),
{
    if colors.len() == 0 {
        Seq::empty()
    } else {
        merged_colors(colors.drop_last(), list, target).push((key_of(merged_key(colors.last().0, list, target)), colors.last().1))
    }
}

/// A mesh whose vertices of `list` all stand for `target`, moved to `pos`.
pub open spec fn merged(mesh: MeshView, list: Seq<usize>, target: usize, pos: Point) -> MeshView {
    MeshView {
        vertices: mesh.vertices.update(target as int, pos),
        edges: merged_edges(mesh.edges, list, target),
        holes: merged_keys(mesh.holes, list, target),
        colors: merged_colors(mesh.colors, list, target),
        ..mesh
    }
}

/// The entries of `list` other than `target`, in their order.
pub open spec fn others(list: Seq<usize>, target: usize) -> Seq<usize>
    decreases list.len(),
{
    if list.len() == 0 {
        Seq::empty()
    } else {
        let prior = others(list.drop_last(), target);
        if list.last() == target { prior } else { prior.push(list.last()) }
    }
}

/// `target` is the smallest entry of `list`.
pub open spec fn is_least(list: Seq<usize>, target: usize) -> bool {
    &&& list.contains(target)
    &&& forall|i: int| 0 <= i < list.len() ==> target <= #[trigger] list[i]
}

/// The key of face `key` once its vertices are mapped.
fn merge_key(key: &[usize], list: &[usize], target: usize) -> (merged: Vec<usize>)
    ensures
        merged@ == key_of(merged_key(key@, list@, target)),
        is_key_of(merged@, merged_key(key@, list@, target)),
{
    let mut mapped: Vec<usize> = Vec::new();
    let mut j: usize = 0;
    while j < key.len()
        invariant
            j <= key@.len(),
            mapped@ == merged_key(key@.take(j as int), list@, target),
        decreases key@.len() - j,
    {
        let v = key[j];
        let m = if crate::faces::listed(list, v) { target } else { v };
        mapped.push(m);
        proof {
            assert(key@.take(j + 1).drop_last() =~= key@.take(j as int));
            assert(key@.take(j + 1).last() == v);
        }
        j = j + 1;
    }
    assert(key@.take(key@.len() as int) =~= key@);
    face_key(mapped.as_slice())
}

proof fn lemma_merged_key_below(key: Seq<usize>, list: Seq<usize>, target: usize, n: nat)
    requires
        forall|j: int| 0 <= j < key.len() ==> #[trigger] key[j] < n,
        target < n,
    ensures
        forall|j: int| 0 <= j < merged_key(key, list, target).len() ==> #[trigger] merged_key(key, list, target)[j] < n,
    decreases key.len(),
{
    if key.len() > 0 {
        let prior = key.drop_last();
        assert forall|j: int| 0 <= j < prior.len() implies #[trigger] prior[j] < n by {
            assert(prior[j] == key[j]);
        }
        lemma_merged_key_below(prior, list, target, n);
        assert(key[key.len() - 1] < n);
        let (now, was) = (merged_key(key, list, target), merged_key(prior, list, target));
        assert forall|j: int| 0 <= j < now.len() implies #[trigger] now[j] < n by {
            if j < was.len() {
                assert(now[j] == was[j]);
            }
        }
    }
}

impl Mesh {
    /// Merges the given vertices, each listed once, into the smallest of them, moved to
    /// `pos`: edges and faces follow their vertices, edges that would join a vertex to
    /// itself or repeat another go, and then the other vertices go (see
    /// `remove_vertices`). Returns the index of the merged vertex.
    pub fn merge(&mut self, vertices: &[usize], pos: Point) -> (target: usize)
        requires
            old(self)@.well_formed(),
            vertices@.len() > 0,
            distinct(vertices@),
            forall|i: int| 0 <= i < vertices@.len() ==> #[trigger] vertices@[i] < old(self).vertices@.len(),
            old(self).layers@.len() + old(self).vertices@.len() < u32::MAX,
        ensures
            is_least(vertices@, target),
            synced(without(merged(old(self)@, vertices@, target, pos), others(vertices@, target)), final(self)@),
            final(self)@ == crate::sync::sync_result(without(merged(old(self)@, vertices@, target, pos), others(vertices@, target)), false),
    {
        let ghost before = self@;
        let ghost list = vertices@;
        let n = self.vertices.len();
        let mut target = vertices[0];
        let mut i: usize = 1;
        while i < vertices.len()
            invariant
                1 <= i <= list.len(),
                list == vertices@,
                list.take(i as int).contains(target),
                forall|k: int| 0 <= k < i ==> target <= #[trigger] list[k],
            decreases list.len() - i,
        {
            if vertices[i] < target {
                target = vertices[i];
            }
            proof {
                assert(list.take(i + 1) =~= list.take(i as int).push(list[i as int]));
            }
            i = i + 1;
        }
        proof {
            assert(list.take(list.len() as int) =~= list);
            assert(target < n);
        }
        let ghost prior_vertices = self.vertices@;
        self.vertices.set(target, pos);
        assert(self@.vertices =~= before.vertices.update(target as int, pos));
        let mut edges: Vec<[usize; 2]> = Vec::new();
        let mut e: usize = 0;
        while e < self.edges.len()
            invariant
                e <= self.edges@.len(),
                list == vertices@,
                target < n == before.vertices.len(),
                views(self.edges@) == before.edges,
                before.well_formed(),
                views(edges@) == merged_edges(before.edges.take(e as int), list, target),
                edges_within(views(edges@), n as nat),
            decreases self.edges@.len() - e,
        {
            let edge = self.edges[e];
            assert(before.edges[e as int] == edge@);
            assert(before.edges[e as int].len() == 2);
            assert(before.edges[e as int][0] < n);
            assert(before.edges[e as int][1] < n);
            let a = if crate::faces::listed(vertices, edge[0]) { target } else { edge[0] };
            let b = if crate::faces::listed(vertices, edge[1]) { target } else { edge[1] };
            let ghost prior = edges@;
            if a != b && !edge_listed(&edges, a, b) {
                let joined = [a, b];
                edges.push(joined);
                proof {
                    assert(views(prior.push(joined)) =~= views(prior).push(joined@));
                    assert(joined@ =~= seq![a, b]);
                    assert forall|k: int| 0 <= k < views(edges@).len() implies #[trigger] views(edges@)[k].len() == 2
                        && views(edges@)[k][0] < n && views(edges@)[k][1] < n by {
                        if k < prior.len() {
                            assert(views(edges@)[k] == views(prior)[k]);
                        }
                    }
                }
            }
            proof {
                assert(before.edges.take(e + 1).drop_last() =~= before.edges.take(e as int));
                assert(before.edges.take(e + 1).last() == edge@);
                assert(views(edges@) =~= merged_edges(before.edges.take(e + 1), list, target));
            }
            e = e + 1;
        }
        proof {
            assert(before.edges.take(before.edges.len() as int) =~= before.edges);
        }
        let mut holes: Vec<Vec<usize>> = Vec::new();
        let mut h: usize = 0;
        while h < self.holes.len()
            invariant
                h <= self.holes@.len(),
                list == vertices@,
                target < n == before.vertices.len(),
                views(self.holes@) == before.holes,
                before.well_formed(),
                views(holes@) == merged_keys(before.holes.take(h as int), list, target),
                keys_below(views(holes@), n as nat),
            decreases self.holes@.len() - h,
        {
            assert(before.holes[h as int] == self.holes@[h as int]@);
            let key = merge_key(self.holes[h].as_slice(), vertices, target);
            proof {
                let hole = before.holes[h as int];
                assert forall|j: int| 0 <= j < hole.len() implies #[trigger] hole[j] < n by {}
                lemma_merged_key_below(hole, list, target, n as nat);
                assert forall|j: int| 0 <= j < key@.len() implies #[trigger] key@[j] < n by {
                    assert(key@.contains(key@[j]));
                }
            }
            let ghost prior = holes@;
            let ghost kv = key@;
            holes.push(key);
            proof {
                assert(views(prior.push(key)) =~= views(prior).push(kv));
                assert(before.holes.take(h + 1).drop_last() =~= before.holes.take(h as int));
                assert(before.holes.take(h + 1).last() == before.holes[h as int]);
                assert(views(holes@) =~= merged_keys(before.holes.take(h + 1), list, target));
                assert forall|k: int, j: int| 0 <= k < views(holes@).len() && 0 <= j < views(holes@)[k].len()
                    implies views(holes@)[k][j] < n by {
                    if k < prior.len() {
                        assert(views(holes@)[k] == views(prior)[k]);
                    }
                }
            }
            h = h + 1;
        }
        proof {
            assert(before.holes.take(before.holes.len() as int) =~= before.holes);
        }
        let mut colors: Vec<(Vec<usize>, Rgba)> = Vec::new();
        let mut c: usize = 0;
        while c < self.colors.len()
            invariant
                c <= self.colors@.len(),
                list == vertices@,
                target < n == before.vertices.len(),
                views(self.colors@) == before.colors,
                before.well_formed(),
                views(colors@) == merged_colors(before.colors.take(c as int), list, target),
                keys_below(color_keys(views(colors@)), n as nat),
            decreases self.colors@.len() - c,
        {
            assert(before.colors[c as int] == self.colors@[c as int]@);
            let key = merge_key(self.colors[c].0.as_slice(), vertices, target);
            let color = self.colors[c].1;
            proof {
                let entry = before.colors[c as int].0;
                assert(color_keys(before.colors)[c as int] == entry);
                assert forall|j: int| 0 <= j < entry.len() implies #[trigger] entry[j] < n by {
                    assert(color_keys(before.colors)[c as int][j] < n);
                }
                lemma_merged_key_below(entry, list, target, n as nat);
                assert forall|j: int| 0 <= j < key@.len() implies #[trigger] key@[j] < n by {
                    assert(key@.contains(key@[j]));
                }
            }
            let ghost prior = colors@;
            let ghost kv = key@;
            colors.push((key, color));
            proof {
                assert(views(prior.push((key, color))) =~= views(prior).push((kv, color)));
                assert(before.colors.take(c + 1).drop_last() =~= before.colors.take(c as int));
                assert(before.colors.take(c + 1).last() == before.colors[c as int]);
                assert(views(colors@) =~= merged_colors(before.colors.take(c + 1), list, target));
                let keys = color_keys(views(colors@));
                assert forall|k: int, j: int| 0 <= k < keys.len() && 0 <= j < keys[k].len() implies keys[k][j] < n by {
                    if k < prior.len() {
                        assert(keys[k] == color_keys(views(prior))[k]);
                    } else {
                        assert(keys[k] == kv);
                    }
                }
            }
            c = c + 1;
        }
        proof {
            assert(before.colors.take(before.colors.len() as int) =~= before.colors);
        }
        self.edges = edges;
        self.holes = holes;
        self.colors = colors;
        let removed = Self::others_of(vertices, target);
        proof {
            let mid = self@;
            assert(mid =~= merged(before, list, target, pos));
            assert forall|k: int| 0 <= k < mid.edges.len() implies #[trigger] mid.edges[k].len() == 2
                && mid.edges[k][0] < mid.vertices.len() && mid.edges[k][1] < mid.vertices.len() by {
                assert(mid.edges[k].len() == 2);
                assert(mid.edges[k][0] < n);
                assert(mid.edges[k][1] < n);
            }
            assert(mid.vertex_layers.len() == mid.vertices.len());
            assert forall|v: int| 0 <= v < mid.vertex_layers.len() implies layer_exists(mid.layers, #[trigger] mid.vertex_layers[v]) by {
                assert(mid.vertex_layers[v] == before.vertex_layers[v]);
            }
            assert(keys_below(mid.holes, mid.vertices.len()));
            assert(keys_below(color_keys(mid.colors), mid.vertices.len()));
            assert(mid.well_formed());
        }
        assert(self.layers@.len() == self@.layers.len() && self.vertices@.len() == self@.vertices.len());
        self.remove_vertices(removed);
        target
    }

    /// The entries of `list` other than `target`.
    fn others_of(list: &[usize], target: usize) -> (rest: Vec<usize>)
        requires
            distinct(list@),
        ensures
            rest@ == others(list@, target),
            distinct(rest@),
            forall|j: int| 0 <= j < rest@.len() ==> list@.contains(#[trigger] rest@[j]),
    {
        let mut rest: Vec<usize> = Vec::new();
        let mut i: usize = 0;
        while i < list.len()
            invariant
                i <= list@.len(),
                distinct(list@),
                rest@ == others(list@.take(i as int), target),
                distinct(rest@),
                forall|j: int| 0 <= j < rest@.len() ==> list@.take(i as int).contains(#[trigger] rest@[j]),
            decreases list@.len() - i,
        {
            let ghost prior = rest@;
            let ghost seen = list@.take(i as int);
            let ghost next = list@.take(i + 1);
            let x = list[i];
            proof {
                assert(next.drop_last() =~= seen);
                assert(next.last() == x);
                assert forall|j: int| 0 <= j < prior.len() implies next.contains(#[trigger] prior[j]) by {
                    let k = choose|k: int| 0 <= k < seen.len() && seen[k] == prior[j];
                    assert(next[k] == prior[j]);
                }
            }
            if x != target {
                rest.push(x);
                proof {
                    assert(!prior.contains(x)) by {
                        if prior.contains(x) {
                            let a = choose|a: int| 0 <= a < prior.len() && prior[a] == x;
                            let k = choose|k: int| 0 <= k < seen.len() && seen[k] == prior[a];
                            assert(list@[k] == list@[i as int]);
                        }
                    }
                    assert(next[i as int] == x);
                }
            }
            i = i + 1;
        }
        assert(list@.take(list@.len() as int) =~= list@);
        rest
    }
}

} // verus!

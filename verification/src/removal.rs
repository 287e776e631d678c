use crate::faces::listed;
use crate::graph::{color_keys, keys_below, layer_exists};
use crate::history::views;
use crate::mesh::{Mesh, MeshView, Rgba};
use crate::sync::synced;
use vstd::prelude::*;

verus! {

broadcast use vstd::seq_lib::group_seq_properties;

/// How many of the vertices below `v` are among `indices`.
pub open spec fn gone_below(indices: Seq<usize>, v: nat) -> nat
    decreases v,
{
    if v == 0 {
        0
    } else {
        gone_below(indices, (v - 1) as nat) + if indices.contains((v - 1) as usize) { 1nat } else { 0nat }
    }
}

/// Where vertex `v` lands once the vertices of `indices` are gone.
pub open spec fn landing(indices: Seq<usize>, v: usize) -> usize {
    (v - gone_below(indices, v as nat)) as usize
}

/// The items whose positions are not among `indices`, in their order.
pub open spec fn kept<T>(items: Seq<T>, indices: Seq<usize>) -> Seq<T>
    decreases items.len(),
{
    if items.len() == 0 {
        Seq::empty()
    } else {
        let prior = kept(items.drop_last(), indices);
        if indices.contains((items.len() - 1) as usize) {
            prior
        } else {
            prior.push(items.last())
        }
    }
}

/// The edges that touch no vertex of `indices`, their ends moved to where they land.
pub open spec fn removed_edges(edges: Seq<Seq<usize>>, indices: Seq<usize>) -> Seq<Seq<usize>>
    decreases edges.len(),
{
    if edges.len() == 0 {
        Seq::empty()
    } else {
        let prior = removed_edges(edges.drop_last(), indices);
        let e = edges.last();
        if !indices.contains(e[0]) && !indices.contains(e[1]) {
            prior.push(seq![landing(indices, e[0]), landing(indices, e[1])])
        } else {
            prior
        }
    }
}

/// A face key without the vertices of `indices`, the others moved to where they land.
pub open spec fn moved_key(key: Seq<usize>, indices: Seq<usize>) -> Seq<usize>
    decreases key.len(),
{
    if key.len() == 0 {
        Seq::empty()
    } else {
        let prior = moved_key(key.drop_last(), indices);
        if indices.contains(key.last()) {
            prior
        } else {
            prior.push(landing(indices, key.last()))
        }
    }
}

/// The moved keys that still name a face, of at least three vertices.
pub open spec fn removed_keys(keys: Seq<Seq<usize>>, indices: Seq<usize>) -> Seq<Seq<usize>>
    decreases keys.len(),
{
    if keys.len() == 0 {
        Seq::empty()
    } else {
        let prior = removed_keys(keys.drop_last(), indices);
        let key = moved_key(keys.last(), indices);
        if key.len() >= 3 {
            prior.push(key)
        } else {
            prior
        }
    }
}

/// The colours of the moved keys that still name a face.
pub open spec fn removed_colors(colors: Seq<(Seq<usize>, Rgba)>, indices: Seq<usize>) -> Seq<(Seq<usize>, Rgba)>
    decreases colors.len(),
{
    if colors.len() == 0 {
        Seq::empty()
    } else {
        let prior = removed_colors(colors.drop_last(), indices);
        let key = moved_key(colors.last().0, indices);
        if key.len() >= 3 {
            prior.push((key, colors.last().1))
        } else {
            prior
        }
    }
}

/// A mesh without the vertices of `indices`: their edges go, the other vertices close
/// up, and faces keep the vertices that remain, as long as at least three do.
pub open spec fn without(mesh: MeshView, indices: Seq<usize>) -> MeshView {
    if indices.len() == 0 {
        mesh
    } else {
        MeshView {
            vertices: kept(mesh.vertices, indices),
            vertex_layers: kept(mesh.vertex_layers, indices),
            edges: removed_edges(mesh.edges, indices),
            holes: removed_keys(mesh.holes, indices),
            colors: removed_colors(mesh.colors, indices),
            ..mesh
        }
    }
}

/// Whether a vertex survives the removal of `indices`.
pub open spec fn survives(indices: Seq<usize>) -> spec_fn(usize) -> bool {
    |v: usize| !indices.contains(v)
}

/// Where each surviving vertex lands.
pub open spec fn lands(indices: Seq<usize>) -> spec_fn(usize) -> usize {
    |v: usize| landing(indices, v)
}

/// Whether a face keeps at least three of its vertices.
pub open spec fn face_survives(indices: Seq<usize>) -> spec_fn(Seq<usize>) -> bool {
    |key: Seq<usize>| key.filter(survives(indices)).len() >= 3
}

/// Whether a coloured face keeps at least three of its vertices.
pub open spec fn color_survives(indices: Seq<usize>) -> spec_fn((Seq<usize>, Rgba)) -> bool {
    |entry: (Seq<usize>, Rgba)| entry.0.filter(survives(indices)).len() >= 3
}

/// A face key once the vertices of `indices` are gone: the vertices it keeps, in order,
/// each moved to where it lands.
pub open spec fn key_after(indices: Seq<usize>) -> spec_fn(Seq<usize>) -> Seq<usize> {
    |key: Seq<usize>| key.filter(survives(indices)).map_values(lands(indices))
}

/// A colour entry once the vertices of `indices` are gone: its key as `key_after` says,
/// its colour unchanged.
pub open spec fn color_after(indices: Seq<usize>) -> spec_fn((Seq<usize>, Rgba)) -> (Seq<usize>, Rgba) {
    |entry: (Seq<usize>, Rgba)| (entry.0.filter(survives(indices)).map_values(lands(indices)), entry.1)
}

/// A face key loses exactly the removed vertices; the others keep their order and move
/// to where they land.
pub proof fn lemma_moved_key_keeps(key: Seq<usize>, indices: Seq<usize>)
    ensures
        moved_key(key, indices) == key.filter(survives(indices)).map_values(lands(indices)),
    decreases key.len(),
{
    broadcast use Seq::lemma_filter_push;
    if key.len() > 0 {
        let front = key.drop_last();
        lemma_moved_key_keeps(front, indices);
        assert(front.push(key.last()) =~= key);
        assert(front.filter(survives(indices)).push(key.last()).map_values(lands(indices))
            =~= front.filter(survives(indices)).map_values(lands(indices)).push(landing(indices, key.last())));
    }
}

/// Removing vertices keeps, in order, the colour entries of the faces that keep at least
/// three vertices, each with its key moved and its colour unchanged, and drops the
/// others: colours follow the same rule as holes.
pub proof fn lemma_removed_colors_keep(colors: Seq<(Seq<usize>, Rgba)>, indices: Seq<usize>)
    ensures
        removed_colors(colors, indices) == colors.filter(color_survives(indices)).map_values(color_after(indices)),
    decreases colors.len(),
{
    broadcast use Seq::lemma_filter_push;
    if colors.len() > 0 {
        let front = colors.drop_last();
        let last = colors.last();
        lemma_removed_colors_keep(front, indices);
        lemma_moved_key_keeps(last.0, indices);
        assert(front.push(last) =~= colors);
        assert(moved_key(last.0, indices).len() == last.0.filter(survives(indices)).len());
        assert(front.filter(color_survives(indices)).push(last).map_values(color_after(indices))
            =~= front.filter(color_survives(indices)).map_values(color_after(indices)).push(color_after(indices)(last)));
    }
}

/// Removing vertices keeps, in order, the holes that keep at least three vertices, each
/// with its key moved, and drops the others.
pub proof fn lemma_removed_keys_keep(keys: Seq<Seq<usize>>, indices: Seq<usize>)
    ensures
        removed_keys(keys, indices) == keys.filter(face_survives(indices)).map_values(key_after(indices)),
    decreases keys.len(),
{
    broadcast use Seq::lemma_filter_push;
    if keys.len() > 0 {
        let front = keys.drop_last();
        let last = keys.last();
        lemma_removed_keys_keep(front, indices);
        lemma_moved_key_keeps(last, indices);
        assert(front.push(last) =~= keys);
        assert(front.filter(face_survives(indices)).push(last).map_values(key_after(indices))
            =~= front.filter(face_survives(indices)).map_values(key_after(indices)).push(key_after(indices)(last)));
    }
}

/// Whether an edge touches none of the vertices of `indices`.
pub open spec fn edge_survives(indices: Seq<usize>) -> spec_fn(Seq<usize>) -> bool {
    |e: Seq<usize>| !indices.contains(e[0]) && !indices.contains(e[1])
}

/// An edge with both ends moved to where they land.
pub open spec fn edge_after(indices: Seq<usize>) -> spec_fn(Seq<usize>) -> Seq<usize> {
    |e: Seq<usize>| seq![landing(indices, e[0]), landing(indices, e[1])]
}

/// Removing vertices keeps, in order, the edges that touch none of them, each with its
/// ends moved to where they land, and drops the others.
pub proof fn lemma_removed_edges_keep(edges: Seq<Seq<usize>>, indices: Seq<usize>)
    ensures
        removed_edges(edges, indices) == edges.filter(edge_survives(indices)).map_values(edge_after(indices)),
    decreases edges.len(),
{
    broadcast use Seq::lemma_filter_push;
    if edges.len() > 0 {
        let front = edges.drop_last();
        let last = edges.last();
        lemma_removed_edges_keep(front, indices);
        assert(front.push(last) =~= edges);
        assert(front.filter(edge_survives(indices)).push(last).map_values(edge_after(indices))
            =~= front.filter(edge_survives(indices)).map_values(edge_after(indices)).push(edge_after(indices)(last)));
    }
}

/// Removing vertices from a mesh treats holes and colours alike: each face that keeps at
/// least three vertices stays, in order, with the vertices it keeps moved to where they
/// land, a coloured face with its colour; the others go. The edges that touch no removed
/// vertex stay, in order, renumbered the same way; layers and images stay.
pub proof fn lemma_without_faces(mesh: MeshView, indices: Seq<usize>)
    requires
        indices.len() > 0,
    ensures
        without(mesh, indices).holes == mesh.holes.filter(face_survives(indices)).map_values(key_after(indices)),
        without(mesh, indices).colors == mesh.colors.filter(color_survives(indices)).map_values(color_after(indices)),
        without(mesh, indices).edges == mesh.edges.filter(edge_survives(indices)).map_values(edge_after(indices)),
        without(mesh, indices).layers == mesh.layers,
        without(mesh, indices).images == mesh.images,
{
    lemma_removed_edges_keep(mesh.edges, indices);
    lemma_removed_keys_keep(mesh.holes, indices);
    lemma_removed_colors_keep(mesh.colors, indices);
}

/// No index occurs twice.
pub open spec fn distinct(indices: Seq<usize>) -> bool {
    forall|i: int, j: int| 0 <= i < j < indices.len() ==> indices[i] != indices[j]
}

pub proof fn lemma_gone_below(indices: Seq<usize>, v: nat)
    ensures
        gone_below(indices, v) <= v,
    decreases v,
{
    if v > 0 {
        lemma_gone_below(indices, (v - 1) as nat);
    }
}

pub proof fn lemma_gone_below_mono(indices: Seq<usize>, v: nat, w: nat)
    requires
        v <= w,
    ensures
        gone_below(indices, v) <= gone_below(indices, w),
        gone_below(indices, w) - gone_below(indices, v) <= w - v,
    decreases w - v,
{
    if v < w {
        lemma_gone_below_mono(indices, v, (w - 1) as nat);
    }
}

/// Where the kept items land.
pub proof fn lemma_kept<T>(items: Seq<T>, indices: Seq<usize>)
    requires
        items.len() <= usize::MAX,
    ensures
        kept(items, indices).len() == items.len() - gone_below(indices, items.len()),
        forall|v: int| 0 <= v < items.len() && !indices.contains(v as usize) ==> #[trigger] landing(indices, v as usize) < kept(items, indices).len(),
        forall|v: int| 0 <= v < items.len() && !indices.contains(v as usize)
            ==> #[trigger] kept(items, indices)[landing(indices, v as usize) as int] == items[v],
    decreases items.len(),
{
    lemma_gone_below(indices, items.len());
    if items.len() > 0 {
        let prior = items.drop_last();
        lemma_kept(prior, indices);
        let n = (items.len() - 1) as int;
        let k = kept(items, indices);
        let kp = kept(prior, indices);
        assert(k == if indices.contains(n as usize) { kp } else { kp.push(items[n]) });
        assert forall|v: int| 0 <= v < items.len() && !indices.contains(v as usize) implies #[trigger] landing(indices, v as usize) < kept(items, indices).len()
            && kept(items, indices)[landing(indices, v as usize) as int] == items[v] by {
            lemma_gone_below(indices, v as nat);
            if v < n {
                assert(prior.len() == n);
                assert(0 <= v < prior.len());
                assert(prior[v] == items[v]);
                assert(kp[landing(indices, v as usize) as int] == prior[v]);
                assert(landing(indices, v as usize) < kp.len());
            } else {
                assert(landing(indices, v as usize) == kp.len());
            }
        }
    }
}

/// A moved key names only kept vertices, each where it lands.
pub proof fn lemma_moved_key(key: Seq<usize>, indices: Seq<usize>, n: nat)
    requires
        forall|j: int| 0 <= j < key.len() ==> #[trigger] key[j] < n,
        n <= usize::MAX,
    ensures
        forall|j: int| 0 <= j < moved_key(key, indices).len() ==> #[trigger] moved_key(key, indices)[j] < n - gone_below(indices, n),
        moved_key(key, indices).len() <= key.len(),
    decreases key.len(),
{
    if key.len() > 0 {
        lemma_moved_key(key.drop_last(), indices, n);
        let v = key.last();
        lemma_gone_below(indices, v as nat);
        if !indices.contains(v) {
            assert(gone_below(indices, (v + 1) as nat) == gone_below(indices, v as nat));
            lemma_gone_below_mono(indices, (v + 1) as nat, n);
        }
    }
}

} // verus!

verus! {

/// Every kept item is an item of the list.
pub proof fn lemma_kept_from<T>(items: Seq<T>, indices: Seq<usize>)
    ensures
        forall|j: int| 0 <= j < kept(items, indices).len() ==> exists|v: int| 0 <= v < items.len() && items[v] == #[trigger] kept(items, indices)[j],
    decreases items.len(),
{
    if items.len() > 0 {
        let prior = items.drop_last();
        lemma_kept_from(prior, indices);
        assert forall|j: int| 0 <= j < kept(items, indices).len() implies exists|v: int| 0 <= v < items.len() && items[v] == #[trigger] kept(items, indices)[j] by {
            if j < kept(prior, indices).len() {
                let v = choose|v: int| 0 <= v < prior.len() && prior[v] == #[trigger] kept(prior, indices)[j];
                assert(items[v] == prior[v]);
            } else {
                assert(items[items.len() - 1] == kept(items, indices)[j]);
            }
        }
    }
}

/// A vertex below `n` that stays lands below the new number of vertices.
pub proof fn lemma_landing_bound(indices: Seq<usize>, v: usize, n: nat)
    requires
        v < n,
        !indices.contains(v),
    ensures
        landing(indices, v) < n - gone_below(indices, n),
{
    lemma_gone_below(indices, v as nat);
    assert(gone_below(indices, (v + 1) as nat) == gone_below(indices, v as nat));
    lemma_gone_below_mono(indices, (v + 1) as nat, n);
}

/// The edges that stay join vertices below the new number of vertices.
#[verifier::spinoff_prover]
pub proof fn lemma_removed_edges(edges: Seq<Seq<usize>>, indices: Seq<usize>, n: nat)
    requires
        forall|i: int| 0 <= i < edges.len() ==> #[trigger] edges[i].len() == 2 && edges[i][0] < n && edges[i][1] < n,
    ensures
        forall|i: int| 0 <= i < removed_edges(edges, indices).len() ==> #[trigger] removed_edges(edges, indices)[i].len() == 2
            && removed_edges(edges, indices)[i][0] < n - gone_below(indices, n)
            && removed_edges(edges, indices)[i][1] < n - gone_below(indices, n),
    decreases edges.len(),
{
    if edges.len() > 0 {
        let prior = edges.drop_last();
        assert forall|i: int| 0 <= i < prior.len() implies #[trigger] prior[i].len() == 2 && prior[i][0] < n && prior[i][1] < n by {
            assert(prior[i] == edges[i]);
        }
        lemma_removed_edges(prior, indices, n);
        let e = edges.last();
        assert(edges[edges.len() - 1] == e);
        if !indices.contains(e[0]) && !indices.contains(e[1]) {
            lemma_landing_bound(indices, e[0], n);
            lemma_landing_bound(indices, e[1], n);
        }
        let after = removed_edges(edges, indices);
        let before = removed_edges(prior, indices);
        assert forall|i: int| 0 <= i < after.len() implies #[trigger] after[i].len() == 2
            && after[i][0] < n - gone_below(indices, n) && after[i][1] < n - gone_below(indices, n) by {
            if i < before.len() {
                assert(after[i] == before[i]);
            }
        }
    }
}

/// The keys that stay name vertices below the new number of vertices.
pub proof fn lemma_removed_keys(keys: Seq<Seq<usize>>, indices: Seq<usize>, n: nat)
    requires
        keys_below(keys, n),
        n <= usize::MAX,
    ensures
        keys_below(removed_keys(keys, indices), (n - gone_below(indices, n)) as nat),
    decreases keys.len(),
{
    lemma_gone_below(indices, n);
    if keys.len() > 0 {
        let prior = keys.drop_last();
        assert forall|i: int, j: int| 0 <= i < prior.len() && 0 <= j < prior[i].len() implies prior[i][j] < n by {
            assert(prior[i] == keys[i]);
        }
        lemma_removed_keys(prior, indices, n);
        let key = keys.last();
        assert(keys[keys.len() - 1] == key);
        assert forall|j: int| 0 <= j < key.len() implies #[trigger] key[j] < n by {
            assert(keys[keys.len() - 1][j] < n);
        }
        lemma_moved_key(key, indices, n);
    }
}

/// The colours that stay name vertices below the new number of vertices.
pub proof fn lemma_removed_colors(colors: Seq<(Seq<usize>, Rgba)>, indices: Seq<usize>, n: nat)
    requires
        keys_below(color_keys(colors), n),
        n <= usize::MAX,
    ensures
        keys_below(color_keys(removed_colors(colors, indices)), (n - gone_below(indices, n)) as nat),
    decreases colors.len(),
{
    lemma_gone_below(indices, n);
    if colors.len() > 0 {
        let prior = colors.drop_last();
        assert forall|i: int, j: int| 0 <= i < color_keys(prior).len() && 0 <= j < color_keys(prior)[i].len() implies color_keys(prior)[i][j] < n by {
            assert(prior[i] == colors[i]);
            assert(color_keys(prior)[i] == color_keys(colors)[i]);
        }
        lemma_removed_colors(prior, indices, n);
        let key = colors.last().0;
        assert(color_keys(colors)[colors.len() - 1] == key);
        assert forall|j: int| 0 <= j < key.len() implies #[trigger] key[j] < n by {
            assert(color_keys(colors)[colors.len() - 1][j] < n);
        }
        lemma_moved_key(key, indices, n);
        let after = removed_colors(colors, indices);
        let before_keys = color_keys(removed_colors(prior, indices));
        assert forall|i: int, j: int| 0 <= i < color_keys(after).len() && 0 <= j < color_keys(after)[i].len()
            implies color_keys(after)[i][j] < n - gone_below(indices, n) by {
            if i < before_keys.len() {
                assert(color_keys(after)[i] == before_keys[i]);
            }
        }
    }
}

/// A mesh stays well formed when vertices go.
pub proof fn lemma_without_well_formed(mesh: MeshView, indices: Seq<usize>)
    requires
        mesh.well_formed(),
        mesh.vertices.len() <= usize::MAX,
    ensures
        without(mesh, indices).well_formed(),
{
    if indices.len() > 0 {
        let n = mesh.vertices.len();
        let after = without(mesh, indices);
        lemma_kept(mesh.vertices, indices);
        lemma_kept(mesh.vertex_layers, indices);
        lemma_kept_from(mesh.vertex_layers, indices);
        lemma_removed_edges(mesh.edges, indices, n);
        lemma_removed_keys(mesh.holes, indices, n);
        lemma_removed_colors(mesh.colors, indices, n);
        assert forall|v: int| 0 <= v < after.vertex_layers.len() implies layer_exists(after.layers, #[trigger] after.vertex_layers[v]) by {
            let u = choose|u: int| 0 <= u < mesh.vertex_layers.len() && mesh.vertex_layers[u] == #[trigger] kept(mesh.vertex_layers, indices)[v];
            assert(layer_exists(mesh.layers, mesh.vertex_layers[u]));
        }
        assert(after.vertices.len() == n - gone_below(indices, n));
        assert(after.vertex_layers.len() == after.vertices.len());
        assert forall|i: int| 0 <= i < after.edges.len() implies #[trigger] after.edges[i].len() == 2
            && after.edges[i][0] < after.vertices.len() && after.edges[i][1] < after.vertices.len() by {
        }
        assert(keys_below(after.holes, after.vertices.len()));
        assert(keys_below(color_keys(after.colors), after.vertices.len()));
    }
}

} // verus!

verus! {

/// What vertex `v` becomes: `gone[v]` tells whether it goes, `lands[v]` where it lands.
pub open spec fn moves(gone: Seq<bool>, lands: Seq<usize>, indices: Seq<usize>, n: int) -> bool {
    &&& gone.len() == n
    &&& lands.len() == n
    &&& forall|v: int| 0 <= v < n ==> #[trigger] gone[v] == indices.contains(v as usize)
    &&& forall|v: int| 0 <= v < n ==> #[trigger] lands[v] == landing(indices, v as usize)
}

/// The face `key` once the vertices of `indices` are gone.
fn move_key(key: &[usize], gone: &Vec<bool>, lands: &Vec<usize>, Ghost(indices): Ghost<Seq<usize>>) -> (moved: Vec<usize>)
    requires
        moves(gone@, lands@, indices, gone@.len() as int),
        forall|j: int| 0 <= j < key@.len() ==> #[trigger] key@[j] < gone@.len(),
    ensures
        moved@ == moved_key(key@, indices),
{
    let mut moved: Vec<usize> = Vec::new();
    let mut j: usize = 0;
    while j < key.len()
        invariant
            j <= key@.len(),
            moves(gone@, lands@, indices, gone@.len() as int),
            forall|k: int| 0 <= k < key@.len() ==> #[trigger] key@[k] < gone@.len(),
            moved@ == moved_key(key@.take(j as int), indices),
        decreases key@.len() - j,
    {
        let v = key[j];
        if !gone[v] {
            moved.push(lands[v]);
        }
        proof {
            assert(key@.take(j + 1).drop_last() =~= key@.take(j as int));
            assert(key@.take(j + 1).last() == v);
            assert(moved@ =~= moved_key(key@.take(j + 1), indices));
        }
        j = j + 1;
    }
    assert(key@.take(key@.len() as int) =~= key@);
    moved
}

impl Mesh {
    /// Removes the vertices `indices` and closes up the others (see `without`).
    fn drop_vertices(&mut self, indices: &Vec<usize>)
        requires
            old(self)@.well_formed(),
            indices@.len() > 0,
        ensures
            final(self)@ == without(old(self)@, indices@),
    {
        let ghost before = self@;
        let ghost list = indices@;
        let n = self.vertices.len();
        let mut gone: Vec<bool> = Vec::new();
        let mut lands: Vec<usize> = Vec::new();
        let mut count: usize = 0;
        let mut v: usize = 0;
        while v < n
            invariant
                v <= n,
                list == indices@,
                count == gone_below(list, v as nat),
                count <= v,
                moves(gone@, lands@, list, v as int),
            decreases n - v,
        {
            let g = listed(indices.as_slice(), v);
            gone.push(g);
            lands.push(v - count);
            if g {
                count = count + 1;
            }
            proof {
                assert(gone_below(list, (v + 1) as nat) == gone_below(list, v as nat) + if list.contains(v) { 1nat } else { 0nat });
            }
            v = v + 1;
        }
        assert(self@.vertices.len() == n && self@.vertex_layers.len() == n);
        let mut vertices: Vec<crate::mesh::Point> = Vec::new();
        let mut layers: Vec<u32> = Vec::new();
        let mut v: usize = 0;
        while v < n
            invariant
                v <= n == before.vertices.len() == before.vertex_layers.len(),
                self@ == before,
                moves(gone@, lands@, list, n as int),
                views(vertices@) == kept(before.vertices.take(v as int), list),
                views(layers@) == kept(before.vertex_layers.take(v as int), list),
            decreases n - v,
        {
            let ghost (pv, pl) = (vertices@, layers@);
            if !gone[v] {
                vertices.push(self.vertices[v]);
                layers.push(self.vertex_layers[v]);
            }
            proof {
                assert(before.vertices.take(v + 1).drop_last() =~= before.vertices.take(v as int));
                assert(before.vertex_layers.take(v + 1).drop_last() =~= before.vertex_layers.take(v as int));
                assert(before.vertices.take(v + 1).last() == before.vertices[v as int]);
                assert(before.vertex_layers.take(v + 1).last() == before.vertex_layers[v as int]);
                assert(views(vertices@) =~= kept(before.vertices.take(v + 1), list));
                assert(views(layers@) =~= kept(before.vertex_layers.take(v + 1), list));
            }
            v = v + 1;
        }
        let mut edges: Vec<[usize; 2]> = Vec::new();
        let mut i: usize = 0;
        while i < self.edges.len()
            invariant
                i <= self.edges@.len(),
                self@ == before,
                before.well_formed(),
                n == before.vertices.len(),
                moves(gone@, lands@, list, n as int),
                views(edges@) == removed_edges(before.edges.take(i as int), list),
            decreases self.edges@.len() - i,
        {
            let e = self.edges[i];
            assert(before.edges[i as int] == e@);
            assert(before.edges[i as int].len() == 2 && before.edges[i as int][0] < n && before.edges[i as int][1] < n);
            assert(e[0] == e@[0] && e[1] == e@[1]);
            let ghost prior = edges@;
            if !gone[e[0]] && !gone[e[1]] {
                let moved = [lands[e[0]], lands[e[1]]];
                edges.push(moved);
                assert(views(prior.push(moved)) =~= views(prior).push(moved@));
                assert(moved@ =~= seq![landing(list, e[0]), landing(list, e[1])]);
            }
            proof {
                assert(before.edges.take(i + 1).drop_last() =~= before.edges.take(i as int));
                assert(before.edges.take(i + 1).last() == e@);
                assert(views(edges@) =~= removed_edges(before.edges.take(i + 1), list));
            }
            i = i + 1;
        }
        let mut holes: Vec<Vec<usize>> = Vec::new();
        let mut i: usize = 0;
        while i < self.holes.len()
            invariant
                i <= self.holes@.len(),
                self@ == before,
                before.well_formed(),
                n == before.vertices.len(),
                moves(gone@, lands@, list, n as int),
                views(holes@) == removed_keys(before.holes.take(i as int), list),
            decreases self.holes@.len() - i,
        {
            assert(before.holes[i as int] == self.holes@[i as int]@);
            assert forall|j: int| 0 <= j < self.holes@[i as int]@.len() implies #[trigger] self.holes@[i as int]@[j] < gone@.len() by {
                assert(before.holes[i as int][j] < n);
            }
            let moved = move_key(self.holes[i].as_slice(), &gone, &lands, Ghost(list));
            let ghost prior = holes@;
            let ghost mv = moved@;
            if moved.len() >= 3 {
                holes.push(moved);
                assert(views(prior.push(moved)) =~= views(prior).push(mv));
            }
            proof {
                assert(before.holes.take(i + 1).drop_last() =~= before.holes.take(i as int));
                assert(before.holes.take(i + 1).last() == before.holes[i as int]);
                assert(views(holes@) =~= removed_keys(before.holes.take(i + 1), list));
            }
            i = i + 1;
        }
        let mut colors: Vec<(Vec<usize>, Rgba)> = Vec::new();
        let mut i: usize = 0;
        while i < self.colors.len()
            invariant
                i <= self.colors@.len(),
                self@ == before,
                before.well_formed(),
                n == before.vertices.len(),
                moves(gone@, lands@, list, n as int),
                views(colors@) == removed_colors(before.colors.take(i as int), list),
            decreases self.colors@.len() - i,
        {
            assert(before.colors[i as int] == self.colors@[i as int]@);
            assert forall|j: int| 0 <= j < self.colors@[i as int].0@.len() implies #[trigger] self.colors@[i as int].0@[j] < gone@.len() by {
                assert(color_keys(before.colors)[i as int] == before.colors[i as int].0);
                assert(color_keys(before.colors)[i as int][j] < n);
            }
            let moved = move_key(self.colors[i].0.as_slice(), &gone, &lands, Ghost(list));
            let color = self.colors[i].1;
            let ghost prior = colors@;
            let ghost mv = moved@;
            if moved.len() >= 3 {
                colors.push((moved, color));
                assert(views(prior.push((moved, color))) =~= views(prior).push((mv, color)));
            }
            proof {
                assert(before.colors.take(i + 1).drop_last() =~= before.colors.take(i as int));
                assert(before.colors.take(i + 1).last() == before.colors[i as int]);
                assert(views(colors@) =~= removed_colors(before.colors.take(i + 1), list));
            }
            i = i + 1;
        }
        self.vertices = vertices;
        self.vertex_layers = layers;
        self.edges = edges;
        self.holes = holes;
        self.colors = colors;
        proof {
            assert(before.vertices.take(n as int) =~= before.vertices);
            assert(before.vertex_layers.take(n as int) =~= before.vertex_layers);
            assert(before.edges.take(before.edges.len() as int) =~= before.edges);
            assert(before.holes.take(before.holes.len() as int) =~= before.holes);
            assert(before.colors.take(before.colors.len() as int) =~= before.colors);
            assert(self@ =~= without(before, list));
        }
    }

    /// Removes the vertices `indices`, each listed once and in any order: their edges go,
    /// the other vertices close up, faces keep the vertices that remain as long as at
    /// least three do; then each component gets a layer of its own (see `sync_layers`).
    pub fn remove_vertices(&mut self, indices: Vec<usize>)
        requires
            old(self)@.well_formed(),
            distinct(indices@),
            forall|i: int| 0 <= i < indices@.len() ==> #[trigger] indices@[i] < old(self).vertices@.len(),
            old(self).layers@.len() + old(self).vertices@.len() < u32::MAX,
        ensures
            synced(without(old(self)@, indices@), final(self)@),
            final(self)@ == crate::sync::sync_result(without(old(self)@, indices@), false),
    {
        let ghost before = self@;
        if indices.len() > 0 {
            self.drop_vertices(&indices);
        }
        proof {
            lemma_without_well_formed(before, indices@);
            if indices@.len() > 0 {
                lemma_kept(before.vertices, indices@);
            }
        }
        assert(self.layers@.len() == self@.layers.len() && self.vertices@.len() == self@.vertices.len());
        self.sync_layers(false);
    }
}

} // verus!

verus! {

impl Mesh {
    /// Removes the images at the given positions, each listed once and in any order.
    pub fn remove_images(&mut self, indices: Vec<usize>)
        requires
            distinct(indices@),
            forall|i: int| 0 <= i < indices@.len() ==> #[trigger] indices@[i] < old(self).images@.len(),
        ensures
            final(self)@ == (MeshView { images: kept(old(self)@.images, indices@), ..old(self)@ }),
    {
        let ghost before = self@;
        let mut images: Vec<crate::mesh::Image> = Vec::new();
        let mut i: usize = 0;
        while i < self.images.len()
            invariant
                i <= self.images@.len(),
                self@ == before,
                views(images@) == kept(before.images.take(i as int), indices@),
            decreases self.images@.len() - i,
        {
            let ghost prior = images@;
            if !listed(indices.as_slice(), i) {
                let copy = crate::element::Element::duplicate(&self.images[i]);
                let ghost cv = copy@;
                images.push(copy);
                assert(views(prior.push(copy)) =~= views(prior).push(cv));
            }
            proof {
                assert(before.images.take(i + 1).drop_last() =~= before.images.take(i as int));
                assert(before.images.take(i + 1).last() == before.images[i as int]);
                assert(before.images[i as int] == self.images@[i as int]@);
                assert(views(images@) =~= kept(before.images.take(i + 1), indices@));
            }
            i = i + 1;
        }
        self.images = images;
        proof {
            assert(before.images.take(before.images.len() as int) =~= before.images);
            assert(self@ =~= MeshView { images: kept(before.images, indices@), ..before });
        }
    }
}

} // verus!
